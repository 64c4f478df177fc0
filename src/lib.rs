//! Date conversion between the Gregorian, Coptic and tabular Islamic
//! calendars through a shared signed day count (Rata Die).

pub mod math;
pub mod epoch;
pub mod error;
pub mod traits;
pub mod gregorian;
pub mod coptic;
pub mod islamic;

pub use epoch::EpochDay;
pub use error::CalError;
pub use traits::{convert, Calendar};
