//! A calendar engine and a collection of small algorithms, each with a
//! contract that Verus proves.
//!
//! The calendar engine (module [`calendar`]) answers questions about a day
//! of the Gregorian calendar: its weekday, the number of its week, its
//! position in the year, the distance to the next lunar new year and to the
//! next trading day.
//!
//! The other modules are independent of it and of each other, but for the
//! text helpers ([`text`]) and the facts about primes ([`primes`]) that
//! some of them share.
pub mod base_conversion;
pub mod bst;
pub mod calendar;
pub mod coin_change;
pub mod count_distinct;
pub mod fibonacci;
pub mod goldbach;
pub mod longest_substring;
pub mod merge_intervals;
pub mod missing_number;
pub mod prime_factors;
pub mod primes;
pub mod province_text;
pub mod provinces;
pub mod retire;
pub mod text;

pub use base_conversion::convert_base;
pub use calendar::query::time_info;
pub use coin_change::dp_rec_mc;
pub use count_distinct::new_count_distinct;
pub use fibonacci::fib;
pub use goldbach::goldbach_conjecture;
pub use longest_substring::longest_substring_without_repeating_chars;
pub use merge_intervals::merge_intervals;
pub use missing_number::find_missing_number;
pub use prime_factors::find_max_prime_factor;
pub use retire::retire_time;
