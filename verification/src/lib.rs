//! Vector and matrix algebra over numeric kinds, with element recycling:
//! a binary operation walks both operands cyclically, so the shorter one is
//! reused as long as its length divides the longer one's.

pub mod matrix;
pub mod property;
pub mod vector;
