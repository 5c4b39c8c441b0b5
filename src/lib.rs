pub mod record;
pub mod codec;
pub mod store;
pub mod numbering;
pub mod service;
pub mod laws;
