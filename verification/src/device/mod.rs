pub mod detector;
pub mod mtp;
