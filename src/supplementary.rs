pub mod hash;
pub mod random;
pub mod stepper;
