//! Text, path and request-building logic of the Stable Diffusion WebUI requestor,
//! specified over the grapheme clusters of each string and verified with Verus.

pub mod unicode;
pub mod http;
pub mod json;
pub mod laws;
pub mod requestor_laws;
pub mod path;
pub mod sd_req;
pub mod split;
pub mod stringops;
pub mod types;
