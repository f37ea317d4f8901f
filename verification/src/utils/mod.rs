pub mod guid;
pub mod resize_fit_rgba;
pub mod rgba_to_bgra;
pub mod rgba_to_bgra_premul;
