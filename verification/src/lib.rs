//! Verified core of a RetroArch slang shader previewer: the preview frame
//! format, CPU source frames and pumps, slang preprocessing, the glslang and
//! SPIR-V normalization decisions, reflection merging, the bind table and the
//! chain-level texture routing, the per-frame framebuffer plan, the
//! renderer's frame state and size builtins, viewport geometry and the live
//! preview loop's pump control.

use vstd::prelude::*;

mod raster;
pub mod frame;
pub mod frame_source;
pub mod source;
pub mod decode;
pub mod sequence;
pub mod uniforms;
pub mod reflect;
pub mod preprocess;
pub mod includes;
pub mod glslang;
pub mod spirv_opt;
pub mod spirv_model;
pub mod push_to_ubo;
pub mod split;
pub mod split_rewrite;
pub mod global_order;
pub mod split_module;
pub mod split_apply;
pub mod bindtable;
pub mod pass;
pub mod chain;
pub mod frame_plan;
pub mod render_state;
pub mod cache;
pub mod viewport;
pub mod render_source;
mod text;

verus! {

/// The preview engine's identity marker.
pub const NAME: &'static str = "preview-engine";

} // verus!
