pub mod cgi;
pub mod chunked;
pub mod config;
pub mod connection;
pub mod http;
pub mod number;
pub mod router;
pub mod server;
pub mod text;
pub mod utils;
