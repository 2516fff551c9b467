//! A Gregorian calendar engine for the years 1 to 9999.
pub mod closure;
pub mod date;
pub mod holiday;
pub mod offset;
pub mod query;
pub mod trading;
pub mod week;
pub mod weekday;
