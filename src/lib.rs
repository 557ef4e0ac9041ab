//! Parsing and rendering of container image references of the form
//! `[registry/]name[:tag][@digest]`.
pub mod grammar;
pub mod image;

pub use image::{DockerImage, DockerImageError, ImageView};
