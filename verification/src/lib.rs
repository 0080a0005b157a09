//! Storage and text logic of a note-taking library organised in titles and points.
pub mod text;
pub mod markup;
pub mod general;
pub mod dates;
pub mod model;
pub mod ids;
pub mod point;
pub mod source;
pub mod share;
pub mod tag;
pub mod image;
pub mod link;
pub mod title;
pub mod library;
pub mod export;
pub mod browse;
pub mod datetime;
pub mod filter;
