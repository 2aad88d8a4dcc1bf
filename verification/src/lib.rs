//! Turning terminal file references such as `lib/config.rb:40:in` into an
//! absolute, normalized filesystem path plus an opaque location suffix.
//!
//! The library has two entry points, composed by the caller:
//! [`extract_path_and_location`] splits a raw reference string into a bare
//! path and an optional location suffix, and [`resolve_path`] turns the bare
//! path plus a working directory (and, when known, the home directory) into a
//! single absolute path, collapsing `.` and `..` components on the way.
//! [`normalize_path`] exposes the collapsing step on its own.
//!
//! Everything is a pure function of its arguments: no call reads the
//! filesystem or the environment, and no input is ever rejected.

pub mod components;
pub mod extract;
pub mod normalize;
pub mod resolve;
pub mod scan;

pub use extract::extract_path_and_location;
pub use normalize::normalize_path;
pub use resolve::resolve_path;
