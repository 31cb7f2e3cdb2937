use rs_algorithm_practise::supplementary::random::RandomGen;
use rs_algorithm_practise::supplementary::stepper::Stepper;

#[test]
fn test_rand() {
    let mut r = RandomGen::new(123);
    for _ in 0..100 {
        let a = r.rand_usize(100_usize);
        println!("{}", a)
    }
}

#[test]
fn rand_exact_first_value() {
    let mut r = RandomGen::new(123);
    // (123 * 56394237 + 346423496) % 25254463563 = 7282914647
    assert_eq!(r.rand_usize(usize::MAX), 7282914647);
    let mut s = RandomGen::new(123);
    assert_eq!(s.rand_usize(100), 47);
}

#[test]
fn test_loop() {
    let mut stepper = Stepper {
        current: 0,
        step: 2,
        max: 100,
    };

    let mut seen = Vec::new();
    while let Some(i) = stepper.next() {
        println!("{}", i);
        seen.push(i);
    }
    assert_eq!(seen.len(), 51);
    assert_eq!(seen[50], 100);
}
