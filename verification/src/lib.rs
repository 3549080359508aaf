//! Numbers in the factorial number system, written as text and read back,
//! together with a small borrowed record type used to show nested
//! destructuring.

pub mod adt;
pub mod canonical;
pub mod convert;
pub mod digits;
pub mod factorial;
pub mod laws;
pub mod places;
pub mod reading;

pub use adt::S;
pub use convert::{
    checked_fact_string_2dec, dec2_fact_string, fact_string_2dec, testing1, testing2,
};
