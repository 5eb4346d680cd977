//! Read facts out of a Docker Compose file: the name, tag and digest of a service's image, and its
//! environment variables.
//!
//! A `docker-compose.yaml` already declares which image version a project runs and how its services
//! are configured, and tooling like Dependabot keeps that declaration current. Restating any of it in
//! Rust creates a second source of truth that drifts silently. Reading it instead leaves the compose
//! file as the one place a version or a credential is written down.
//!
//! A [`Compose`] is built from what a YAML reader makes of the file, a [`RawCompose`]. It hands out
//! its services by name; a [`Service`] hands out its [`Image`] and the values of its environment
//! variables.

pub mod compose;
pub mod document;
pub mod image;
pub mod order;
pub mod scalar;
pub mod service;
pub mod table;
pub mod text;

pub use crate::compose::Compose;
pub use crate::document::RawCompose;
pub use crate::document::RawEnvironment;
pub use crate::document::RawService;
pub use crate::image::Image;
pub use crate::scalar::Scalar;
pub use crate::service::Service;
