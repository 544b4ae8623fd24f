//! What the parsers promise of bytes, stated of the bytes themselves.

pub mod event;
pub mod instance;
pub mod lnk;
pub mod log;
pub mod mft;
pub mod prefetch;
pub mod record;
pub mod signatures;
pub mod template;
pub mod values;
pub mod xpress;
