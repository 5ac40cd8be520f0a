//! Rules of a location-based scavenger hunt: the ordered catalogue of steps
//! and the progression of the players through it.

pub mod auth;
pub mod errors;
pub mod matcher;
pub mod media;
pub mod password;
pub mod step;
pub mod step_laws;
pub mod text;
pub mod user;
pub mod user_laws;
