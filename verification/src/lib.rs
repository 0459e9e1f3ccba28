//! The logic of Lave Station, a desktop application for a Docker daemon: what its window
//! shows, what it offers to do, and how it keeps in touch with the daemon.

pub mod activity;
pub mod arrange;
pub mod binary64;
pub mod cli;
pub mod endpoint;
pub mod engine;
pub mod indicator;
pub mod lists;
pub mod model;
pub mod ordered;
pub mod settings;
pub mod text;
