pub mod disk;
pub mod error;
pub mod html;
pub mod lists;
pub mod outside;
pub mod page;
pub mod route;
pub mod source;
pub mod state;
pub mod text;
