//! Decoding of the binary spectrum files written by a spectral-acquisition
//! suite: the encrypted, checksummed and compressed container, the generic
//! object tree stored in its buffers, and the spectral record held by that
//! tree.
//!
//! Every decoding function returns a result and never panics: offsets and
//! sizes read from the input are checked before they are used.

pub mod le;
pub mod header;
pub mod text;
pub mod object;
pub mod cipher;
pub mod rle;
pub mod container;
pub mod spc_file;
pub mod spectre;

pub use object::StorageObject;
pub use spc_file::{Calibration, Config, SpcFile};
pub use spectre::SpectreFile;
