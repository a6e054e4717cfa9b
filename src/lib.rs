//! Verified number-theoretic and text routines.
//!
//! The centre is an engine that finds the largest prime factor of a 128-bit
//! unsigned integer: overflow-free modular arithmetic ([`modular`]), a
//! Miller-Rabin primality test ([`primality`]), trial division and
//! Pollard's rho ([`factor`]), and the reduction that combines them
//! ([`max_factor`]). Beside it stand smaller routines: Fibonacci numbers,
//! fewest banknotes for an amount, a search among odd composites, calendar
//! facts about a date, numeral conversion between bases, counting distinct
//! fields, and a retirement date calculation.
pub mod calendar;
pub mod coins;
pub mod distinct;
pub mod factor;
pub mod fermat;
pub mod fibonacci;
pub mod goldbach;
pub mod max_factor;
pub mod modular;
pub mod primality;
pub mod radix;
pub mod retirement;
pub mod text;

pub use calendar::time_info;
pub use coins::dp_rec_mc;
pub use distinct::new_count_distinct;
pub use factor::{gcd, pollard_rho, trial_division};
pub use fibonacci::{fib, odd_fibnacci_sum};
pub use goldbach::goldbach_conjecture;
pub use max_factor::find_max_prime_factor;
pub use modular::{multiply_mod, power_mod};
pub use primality::is_prime;
pub use radix::convert_base;
pub use retirement::retire_time;
