//! Archive media files so that every byte comes back.

use vstd::prelude::*;

pub mod agent;
pub mod agent_law;
pub mod alpha;
pub mod archive_law;
pub mod cli;
pub mod cli_law;
pub mod codeword;
pub mod companion_law;
pub mod companions;
pub mod compression;
pub mod container;
pub mod container_law;
pub mod error_law;
pub mod exact_groups;
pub mod exact_law;
pub mod film_law;
pub mod format_law;
pub mod gif_bits;
pub mod gif_colours;
pub mod gif_exact;
pub mod gif_film;
pub mod gif_model;
pub mod gif_predict;
pub mod gif_side;
pub mod gif_split;
pub mod head_law;
pub mod index;
pub mod json;
pub mod locale;
pub mod locale_law;
pub mod loose;
pub mod lzw;
pub mod lzw_law;
pub mod manifest;
pub mod manifest_law;
pub mod mcp;
pub mod mcp_law;
pub mod model_coder;
pub mod model_law;
pub mod model_plane;
pub mod monitor;
pub mod motion_frames;
pub mod motion_pixels;
pub mod motion_record;
pub mod motion_scan;
pub mod motion_search;
pub mod mov_cross;
pub mod mov_exact;
pub mod mov_model;
pub mod mov_motion;
pub mod mov_motion_entropy;
pub mod mov_source;
pub mod name_law;
pub mod order;
pub mod packing;
pub mod packing_law;
pub mod paths;
pub mod plane;
pub mod ppmd;
pub mod prores_bits;
pub mod prores_frame;
pub mod record_law;
pub mod records;
pub mod restoring;
pub mod root_law;
pub mod roots;
pub mod scan;
pub mod scan_law;
pub mod scanning;
pub mod source_band;
pub mod source_codec;
pub mod source_decode;
pub mod source_encode;
pub mod source_frames;
pub mod source_law;
pub mod source_likeness;
pub mod source_planes;
pub mod source_pool;
pub mod source_rc;
pub mod splice;
pub mod source_record;
pub mod source_residual;
pub mod source_search;
pub mod streams;
pub mod task_law;
pub mod text;
pub mod text_law;
pub mod transform;
pub mod volume_law;
pub mod volumes;
pub mod wire;

verus! {

}
