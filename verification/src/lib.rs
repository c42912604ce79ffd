//! Floyd–Steinberg error-diffusion dithering.
//!
//! The library reduces each color channel of an 8-bit image to a small,
//! evenly spaced palette, diffusing the quantization error of each pixel
//! into its forward neighbors in raster order.

pub mod arith;
pub mod channels;
pub mod engine;
pub mod grid;
pub mod laws;
pub mod palette;

pub use arith::saturating_add;
pub use channels::assemble_rgb;
pub use channels::dither;
pub use channels::split_channels;
pub use channels::Rgba;
pub use channels::RgbaImage;
pub use engine::floyd_steinberg;
pub use engine::quantize;
pub use palette::find_closest_color;
pub use palette::gen_palette;
