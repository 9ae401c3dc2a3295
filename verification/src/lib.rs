//! A V.21 soft-modem core: the signal-processing and framing pipeline that
//! turns a byte stream into 300-baud FSK audio and back.
//!
//! The pipeline has four stateful components, wired in two directions:
//!
//! ```text
//!   bytes in  -> [UartTx] -> bit samples -> [V21TX] -> audio out
//!   audio in  -> [V21RX]  -> bit samples -> [UartRx] -> bytes out
//! ```
//!
//! All components accept arbitrarily sized buffers and keep their state
//! across calls, so no call has to align with a symbol or byte boundary.
//! Audio samples are fixed-point integers (a full-scale tone spans
//! roughly -32767..=32767); the surrounding audio plumbing converts to
//! and from whatever sample format the sound device uses.

pub mod uart;
pub mod v21;

pub use uart::UartRx;
pub use uart::UartTx;
pub use v21::V21RX;
pub use v21::V21TX;
