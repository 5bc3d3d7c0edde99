pub mod text;
pub mod request;
pub mod head;
pub mod client;
pub mod utils;
pub mod config;
pub mod router;
pub mod response;
pub mod upload;
pub mod setup;
pub mod event;
