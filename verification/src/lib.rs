pub mod text;
pub mod rjson;
pub mod render;
pub mod capacity;
pub mod admin;
pub mod framing;
