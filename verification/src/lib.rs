//! HTTP client and server logic with the contracts that say what each step
//! computes.
pub mod text;
pub mod headers;
pub mod uri;
pub mod client;
pub mod date;
pub mod request;
pub mod server;
pub mod todo;
pub mod exchange;
