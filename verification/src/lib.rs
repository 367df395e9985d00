//! Turns text lines into bounded, escaped `PUTNOTIF` notification messages.
//!
//! A line is measured, rate limited over a time window, cut into fragments of
//! bounded size and rendered as one protocol message per fragment. Every step
//! is a function from plain values to plain values; reading lines, reading
//! clocks and writing messages are left to the caller.
//!
//! - [`config`]: the settings, the service name and the host name.
//! - [`clock`]: readings of the caller's monotonic clock.
//! - [`fragment`]: the content length of a line, and its fragments.
//! - [`limiter`]: the rate limit over a time window.
//! - [`escape`]: escaping of content for the quoted body of a message.
//! - [`message`]: the text of a message and of a discard notice.
//! - [`relay`]: the state carried from line to line, and the steps per line.
//! - [`ascii`]: the bytes that the formats give a meaning.

pub mod ascii;
pub mod clock;
pub mod config;
pub mod escape;
pub mod fragment;
pub mod limiter;
pub mod message;
pub mod relay;
