//! Configuration guard and normalizer for a proxy engine's control-plane
//! settings.
//!
//! The crate owns an ordered key/value configuration document and guarantees
//! that the inbound mixed proxy port and the external controller address are
//! always present, well-formed and internally consistent, even when the
//! on-disk document is missing, malformed or user-edited into an invalid
//! state.  All other keys pass through unchanged.

pub mod digits;
pub mod addr;
pub mod doc;
pub mod ext;
pub mod guard;
pub mod laws;
pub mod shapes;
pub mod text;

pub use doc::{ConfigDoc, ConfigValue, Val};
pub use guard::{ClashInfo, IClashTemp};
pub use shapes::{IClash, IClashDNS, IClashFallbackFilter, IClashTUN};
