//! Encoder for a compact voxel-model format.
//!
//! A model is a sparse list of coloured voxels inside a bounding box. Encoding
//! one model gives a *frame*: a five-byte header, a table of the distinct
//! colours in first-seen order, and the dense grid run-length encoded in
//! X-outer, Y-middle, Z-inner order. A frame may be replaced by its LZMA
//! stream where that is strictly shorter. Several frames can be packed into an
//! animation container.
//!
//! The crate is verified with Verus. Each function's contract is stated over
//! the spec functions that stand beside it, and the laws that hold of the
//! format (the table holds no colour twice, runs keep within their budgets,
//! decoding a frame gives back the model) are proof functions. One thing is
//! taken on trust: what the call into the LZMA compressor returns.

pub mod animation;
pub mod convert;
pub mod error;
pub mod frame;
pub mod grid;
pub mod model;
pub mod palette;
pub mod rle;
pub mod scene;

pub use animation::{pack_animation, MAX_FRAMES};
pub use convert::{encode_frames, VoxData};
pub use error::EncodeError;
pub use frame::{convert_model_to_dat, encode_frame, select_output, MAX_EFFORT};
pub use grid::linearize;
pub use model::{Color, Model, Size, Voxel};
pub use palette::{build_palette, get_color_index};
pub use rle::{encode_runs, select_mode, Mode};
pub use scene::{get_model_ids, SceneNode};
