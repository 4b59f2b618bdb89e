//! What is done with archives: listing them, reading a file out of them,
//! unpacking them, and packing a directory into one.

pub mod archive_local;
pub mod cat_file;
pub mod extract;
pub mod ls;

pub use crate::cid::{empty_pb_cid, pb_cid, raw_cid, BLAKE2B256_CODEC};
pub use archive_local::{archive_local, pipe_raw_cid, walk_dir, walk_inner};
pub use cat_file::{cat_ipld, ipld_write};
pub use extract::{extract_ipld, extract_ipld_inner, extract_ipld_to_current_path};
pub use ls::{list, list_call, list_cid, walk};
pub mod merkle;
pub mod packed;
pub mod readback;
