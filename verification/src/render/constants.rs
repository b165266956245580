//! WebGPU usage bits and the vertex layout of the meshes.

use vstd::prelude::*;

verus! {

pub const GPU_BUFFER_USAGE_COPY_DST: u32 = 0x8;
pub const GPU_BUFFER_USAGE_INDEX: u32 = 0x10;
pub const GPU_BUFFER_USAGE_VERTEX: u32 = 0x20;
pub const GPU_BUFFER_USAGE_UNIFORM: u32 = 0x40;

pub const GPU_TEXTURE_USAGE_COPY_DST: u32 = 0x2;
pub const GPU_TEXTURE_USAGE_TEXTURE_BINDING: u32 = 0x4;
pub const GPU_TEXTURE_USAGE_RENDER_ATTACHMENT: u32 = 0x10;

/// Visibility of a binding in a bind group layout entry (shader stages).
pub const GPU_SHADER_STAGE_VERTEX: u32 = 0x1;
pub const GPU_SHADER_STAGE_FRAGMENT: u32 = 0x2;

/// One vertex is position.xyz followed by normal.xyz, as 32-bit floats; the
/// offsets match the shaders' `@location(0)` and `@location(1)`.
pub const POSITION_ATTRIBUTE_OFFSET: u32 = 0;
pub const NORMAL_ATTRIBUTE_OFFSET: u32 = 12;
pub const VERTEX_STRIDE: u32 = 24;

} // verus!
