pub mod backend;
pub mod buffer;
pub mod cmd;
pub mod model;
pub mod resp;
