//! Verified core of the xioioi judge: text encodings, sessions,
//! problem packages and page rendering.
pub mod auth;
pub mod db;
pub mod frontend;
pub mod pkg;
pub mod text;
