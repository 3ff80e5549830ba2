//! Small grid helpers: points and compass directions.
pub mod dir;
pub mod point2d;
