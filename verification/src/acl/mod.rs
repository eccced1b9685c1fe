pub mod errno;
pub mod facade;
pub mod model;
pub mod names;
pub mod xattr;
