//! Converts shadowsocks subscriptions into Clash configurations and proxy providers.
pub mod text;
pub mod codec;
pub mod pattern;
pub mod decode;
pub mod utils;
pub mod structs;
pub mod nodes;
pub mod proxies;
pub mod rules;
pub mod service;

pub use crate::nodes::get_nodes;
pub use crate::proxies::{filter_node, generate_proxies, generate_proxy_groups};
pub use crate::rules::generate_rules;
