//! Smoothing of a dated body-weight series: the raw samples, a centred
//! rolling average and a local linear regression, all in exact arithmetic.
//!
//! Dates are day numbers (days from the start of the common era, with
//! 0001-01-01 as day 1). Measurements are integers in a fixed fraction of
//! their unit chosen by the caller (hundredths of a pound, say). Every derived
//! value is an exact fraction.
pub mod calendar;
pub mod record;
pub mod regression;
pub mod series;
pub mod window;
