//! Decoding, modelling, capture bookkeeping and replay pacing for the HID
//! wire format: report descriptors, fixed-size reports, the textual
//! record/replay format, and the packet reassembly used by kernel tracing.

pub mod backends;
pub mod bits;
pub mod codec;
pub mod descriptor;
pub mod items;
pub mod numberarray;
pub mod reassembly;
pub mod recording;
pub mod replay;
pub mod textnum;
