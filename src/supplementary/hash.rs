use vstd::prelude::*;
use vstd::string::StrSliceExecFns;
use vstd::string::StringSliceAdditionalSpecFns;

verus! {

/// One mixing step of the digest: folds byte `b` into the running value `n`,
/// where `prev` is the byte folded in just before it.
pub open spec fn mix(n: u128, prev: u8, b: u8) -> u128 {
    n.wrapping_add(11).wrapping_mul((b + 13u8 as int) as u128).wrapping_add((((b ^ prev) as u128) % (u64::MAX as u128)) as u128)
}

/// The hasher state `(n, prev)` reached from `(n, prev)` after folding in `bytes`.
pub open spec fn mix_all(n: u128, prev: u8, bytes: Seq<u8>) -> (u128, u8)
    decreases bytes.len(),
{
    if bytes.len() == 0 {
        (n, prev)
    } else {
        mix_all(mix(n, prev, bytes[0]), bytes[0], bytes.drop_first())
    }
}

/// The `k` low-order bytes of `x`, least significant first.
pub open spec fn le_bytes(x: nat, k: nat) -> Seq<u8>
    decreases k,
{
    if k == 0 {
        Seq::empty()
    } else {
        seq![(x % 256) as u8] + le_bytes(x / 256, (k - 1) as nat)
    }
}

/// The digest of a key's bytes under `seed`: the seed's eight bytes followed by the
/// key's bytes, folded from the zero state, truncated to 64 bits.
pub open spec fn digest(seed: u64, bytes: Seq<u8>) -> u64 {
    mix_all(0, 0, le_bytes(seed as nat, 8) + bytes).0 as u64
}

/// A value that can serve as a hash-table key: it is identified by its bytes.
pub trait HashKey {
    spec fn key_view(&self) -> Seq<u8>;

    fn key_bytes(&self) -> (r: Vec<u8>)
        ensures
            r@ == self.key_view(),
    ;
}

impl<'a> HashKey for &'a str {
    open spec fn key_view(&self) -> Seq<u8> {
        (**self).spec_bytes()
    }

    fn key_bytes(&self) -> (r: Vec<u8>) {
        (**self).as_bytes_vec()
    }
}

impl HashKey for String {
    open spec fn key_view(&self) -> Seq<u8> {
        vstd::utf8::encode_utf8(self@)
    }

    fn key_bytes(&self) -> (r: Vec<u8>) {
        self.as_str().as_bytes_vec()
    }
}

impl HashKey for u64 {
    open spec fn key_view(&self) -> Seq<u8> {
        le_bytes(*self as nat, 8)
    }

    fn key_bytes(&self) -> (r: Vec<u8>) {
        u64_le_bytes(*self)
    }
}

impl HashKey for u8 {
    open spec fn key_view(&self) -> Seq<u8> {
        le_bytes((*self as u64) as nat, 8)
    }

    fn key_bytes(&self) -> (r: Vec<u8>) {
        u64_le_bytes(*self as u64)
    }
}

impl HashKey for u16 {
    open spec fn key_view(&self) -> Seq<u8> {
        le_bytes((*self as u64) as nat, 8)
    }

    fn key_bytes(&self) -> (r: Vec<u8>) {
        u64_le_bytes(*self as u64)
    }
}

impl HashKey for u32 {
    open spec fn key_view(&self) -> Seq<u8> {
        le_bytes((*self as u64) as nat, 8)
    }

    fn key_bytes(&self) -> (r: Vec<u8>) {
        u64_le_bytes(*self as u64)
    }
}

impl HashKey for usize {
    open spec fn key_view(&self) -> Seq<u8> {
        le_bytes((*self as u64) as nat, 8)
    }

    fn key_bytes(&self) -> (r: Vec<u8>) {
        u64_le_bytes(*self as u64)
    }
}

impl HashKey for i8 {
    open spec fn key_view(&self) -> Seq<u8> {
        le_bytes((*self as u64) as nat, 8)
    }

    fn key_bytes(&self) -> (r: Vec<u8>) {
        u64_le_bytes(*self as u64)
    }
}

impl HashKey for i16 {
    open spec fn key_view(&self) -> Seq<u8> {
        le_bytes((*self as u64) as nat, 8)
    }

    fn key_bytes(&self) -> (r: Vec<u8>) {
        u64_le_bytes(*self as u64)
    }
}

impl HashKey for i32 {
    open spec fn key_view(&self) -> Seq<u8> {
        le_bytes((*self as u64) as nat, 8)
    }

    fn key_bytes(&self) -> (r: Vec<u8>) {
        u64_le_bytes(*self as u64)
    }
}

impl HashKey for i64 {
    open spec fn key_view(&self) -> Seq<u8> {
        le_bytes((*self as u64) as nat, 8)
    }

    fn key_bytes(&self) -> (r: Vec<u8>) {
        u64_le_bytes(*self as u64)
    }
}

impl HashKey for isize {
    open spec fn key_view(&self) -> Seq<u8> {
        le_bytes((*self as u64) as nat, 8)
    }

    fn key_bytes(&self) -> (r: Vec<u8>) {
        u64_le_bytes(*self as u64)
    }
}

impl HashKey for char {
    open spec fn key_view(&self) -> Seq<u8> {
        le_bytes((*self as u32) as nat, 8)
    }

    fn key_bytes(&self) -> (r: Vec<u8>) {
        u64_le_bytes((*self as u32) as u64)
    }
}

/// The eight bytes of `x`, least significant first.
pub fn u64_le_bytes(x: u64) -> (r: Vec<u8>)
    ensures
        r@ == le_bytes(x as nat, 8),
{
    let mut out: Vec<u8> = Vec::new();
    let mut cur: u64 = x;
    let mut i: usize = 0;
    while i < 8
        invariant
            i <= 8,
            out@ + le_bytes(cur as nat, (8 - i) as nat) == le_bytes(x as nat, 8),
        decreases 8 - i,
    {
        let ghost rest = le_bytes(cur as nat / 256, (8 - i - 1) as nat);
        assert(le_bytes(cur as nat, (8 - i) as nat) == seq![(cur as nat % 256) as u8] + rest);
        out.push((cur % 256) as u8);
        cur = cur / 256;
        i = i + 1;
        assert(out@ + rest =~= (out@.drop_last() + seq![(out@.last())]) + rest);
    }
    assert(le_bytes(cur as nat, 0) == Seq::<u8>::empty());
    assert(out@ =~= out@ + Seq::<u8>::empty());
    out
}

/// The running state of the digest.
pub struct MHash {
    prev: u8,
    n: u128,
}

impl MHash {
    /// The state `(n, prev)`.
    pub closed spec fn state(&self) -> (u128, u8) {
        (self.n, self.prev)
    }

    /// A fresh state, with nothing folded in yet.
    pub fn new() -> (r: MHash)
        ensures
            r.state() == (0u128, 0u8),
    {
        MHash { prev: 0, n: 0 }
    }

    /// The digest of everything folded in so far: the running value's low 64 bits.
    pub fn finish(&self) -> (r: u64)
        ensures
            r == self.state().0 as u64,
    {
        self.n as u64
    }

    /// Folds each byte of `bytes` into the state, in order.
    pub fn write(&mut self, bytes: &[u8])
        ensures
            final(self).state() == mix_all(old(self).state().0, old(self).state().1, bytes@),
    {
        let ghost s = bytes@;
        let mut i: usize = 0;
        assert(s.subrange(0, s.len() as int) =~= s);
        while i < bytes.len()
            invariant
                s == bytes@,
                i <= s.len(),
                mix_all(self.n, self.prev, s.subrange(i as int, s.len() as int))
                    == mix_all(old(self).state().0, old(self).state().1, s),
            decreases s.len() - i,
        {
            let b = bytes[i];
            assert(s.subrange(i as int, s.len() as int).drop_first() =~= s.subrange(
                i + 1,
                s.len() as int,
            ));
            self.n = self.n.wrapping_add(11).wrapping_mul(b as u128 + 13).wrapping_add(
                ((b ^ self.prev) as u128) % (u64::MAX as u128),
            );
            self.prev = b;
            i = i + 1;
        }
        assert(s.subrange(i as int, s.len() as int) =~= Seq::<u8>::empty());
    }
}

/// The digest of `value` under `seed`.
pub fn hash<T: HashKey>(seed: u64, value: &T) -> (r: u64)
    ensures
        r == digest(seed, value.key_view()),
{
    let mut bytes = u64_le_bytes(seed);
    let mut key = value.key_bytes();
    bytes.append(&mut key);
    let mut h = MHash::new();
    h.write(bytes.as_slice());
    h.finish()
}

} // verus!
