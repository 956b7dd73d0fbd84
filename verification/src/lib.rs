pub mod text;
pub mod strmap;
pub mod model;
pub mod android;
pub mod w3c_keys;
pub mod clock;
pub mod batch;
pub mod linux;
pub mod macos;
pub mod windows;
pub mod cli;
