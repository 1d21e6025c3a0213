//! What a PIX harness reads of an Exit, and what it sizes a run by.
//!
//! * [`pix_exit`] reads the Exit's `hopr_pix_*` aggregates out of its `/metrics`, and [`trace`]
//!   follows a few of them over a scenario.
//! * [`shapes`] is the geometry and the session sizing that scenarios run at.
//! * [`udp_service`] is what a local service answers the Exit with.
//!
//! Below them: [`exposition`] says what one line of the text format says, [`labels`] makes the key
//! of a series, [`series`] holds series by key, and [`histogram`] is one histogram series. [`laws`]
//! states what holds of readings as a whole, and [`written`] how lines read back as they were
//! written. Numbers are [`decimal`] where they are whole, and [`double`]s where they are not:
//! [`numeral`] reads those, [`rounding`] rounds them, on the [`bignat`]s that exact arithmetic
//! needs. [`text`] cuts and orders text.

pub mod bignat;
pub mod decimal;
pub mod double;
pub mod exposition;
pub mod histogram;
pub mod labels;
pub mod laws;
pub mod numeral;
pub mod pix_exit;
pub mod rounding;
pub mod series;
pub mod shapes;
pub mod text;
pub mod trace;
pub mod udp_service;
pub mod written;
