//! The SLIME kernel: request normalization, the stub law resolver,
//! HTTP framing decisions and the fixed 32-byte egress frame.
//!
//! - `runner`: the sealed domain table, the capacity resolver, actuation
//!   tokens and the verdict on a request;
//! - `http`: framing of the hardened ingress (header and body limits);
//! - `effect`: the 32-byte little-endian egress frame;
//! - `actuator`: the log line that the actuator writes per frame;
//! - `engine`: the ingress in front of the sealed AB-S engine;
//! - `number`: JSON numbers as the engine reads a magnitude;
//! - `base64`: strict base64 decoding of engine payloads;
//! - `text`: byte-level text primitives they share.

pub mod actuator;
pub mod base64;
pub mod effect;
pub mod http;
pub mod number;
pub mod engine;
pub mod runner;
pub mod text;

pub use crate::effect::AuthorizedEffect;
pub use crate::engine::{ActionRequest, AB_S_Verdict};
pub use crate::runner::{resolve, Budget, Capacity, Domain, Magnitude, Progression};
