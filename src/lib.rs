//! Zero-copy parsing of single StatsD protocol units.
//!
//! A unit has the shape `<name>:<value>|<type>[|@<sample-rate>][|#<tags>]`.
//! Parsing records field offsets into a shared byte buffer; accessors hand
//! out sub-slices of that buffer without copying.

use vstd::prelude::*;

pub mod buffers;
pub mod laws;
pub mod layout;
pub mod pdu;

pub use pdu::StatsdPDU;
