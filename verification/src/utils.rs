pub mod cookie;
pub mod session;
