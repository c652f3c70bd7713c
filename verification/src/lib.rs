//! A contact-form relay: request admission, recipient resolution and
//! fan-out delivery with partial-failure aggregation.

pub mod client_ip;
pub mod config;
pub mod delivery_log;
pub mod dispatch;
pub mod email;
pub mod health;
pub mod logger;
pub mod mask;
pub mod pipeline;
pub mod rate_limit;
pub mod recipients;
pub mod text;
pub mod types;
