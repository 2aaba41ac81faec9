//! What holds of the parts together: what is written reads back, what is
//! sent arrives, what is asked is answered. And what each part does, said of
//! the bytes, characters and numbers it takes and gives.

pub mod ceilings;
pub mod compression;
pub mod delivery;
pub mod fields;
pub mod lengths;
pub mod loops;
pub mod names;
pub mod naming;
pub mod numbers;
pub mod reading;
pub mod roundtrip;
pub mod shapes;
pub mod strings;
pub mod targets;
pub mod texts;
pub mod verdicts;
pub mod writing;
