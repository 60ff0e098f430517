pub mod text;
pub mod items;
pub mod board;
pub mod dashboard;
pub mod docker;
pub mod http;
pub mod paths;
pub mod json;
pub mod numfmt;
