pub mod actor;
pub mod message;
pub mod router;
pub mod timeline;
