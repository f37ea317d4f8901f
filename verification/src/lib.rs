pub mod archive;
pub mod enumerate;
pub mod installer;
pub mod laws;
pub mod listing;
pub mod path;
pub mod provider;
pub mod storage;
pub mod text;
pub mod thumbnail;
pub mod utils;
pub mod wide;
