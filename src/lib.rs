//! Bit-packed linear algebra over GF(2), with a solver for the
//! "Lights Off" toggle puzzle built on top of it.
pub mod bitvec;
pub mod bitmat;
pub mod bitalg;
pub mod ligsol;
