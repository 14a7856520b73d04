pub mod text;
pub mod slot;
pub mod cmdline;
pub mod bls;
pub mod context;
pub mod model;
pub mod config_txt;
pub mod firmware;
pub mod mounts;
pub mod fatsync;
pub mod orchestrate;
pub mod paths;
pub mod single_probe;
