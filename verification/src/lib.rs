//! A reverse proxy core: HTTP framing, configuration and per-connection decisions, free of I/O.
pub mod balance;
pub mod config;
pub mod config_laws;
pub mod connection;
pub mod connection_laws;
pub mod decimal;
pub mod document;
pub mod double;
pub mod errors;
pub mod headers;
pub mod http;
pub mod http_laws;
pub mod line_laws;
pub mod message;
pub mod rewrite;
pub mod search;
pub mod server;
pub mod settings_laws;
pub mod stream;
pub mod stream_laws;
pub mod text;
pub mod tls;
pub mod traffic_laws;
pub mod transmittable;
pub mod value_laws;
pub mod word_laws;
