//! A software rasterizer for RGBA8 pixel buffers: single pixels, alpha
//! blending, anti-aliased thick line segments and supersampled triangles.
pub mod coverage;
pub mod frame;
pub mod math;
pub mod rendering;

pub use frame::FIXED_ONE;
pub use math::Vec2;
pub use rendering::Renderer;
