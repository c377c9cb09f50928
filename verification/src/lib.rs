//! netbat: Juniper firewall configuration analysis.
//!
//! Parses JunOS hierarchical configuration text and answers questions about
//! zone membership, reachability between addresses, and shadowed policy rules.

pub mod text;
pub mod ipv4;
pub mod name_map;
pub mod models;
pub mod applications;
pub mod parser;
pub mod builder;
pub mod analysis;
pub mod cli;
pub mod report;

pub use analysis::{
    interface_ips, reachability, shadowed_rule_refs, shadowed_rules, zone_of_ip,
    ReachabilityResult,
};
pub use builder::build_network_config;
pub use ipv4::{Ipv4Addr, Ipv4Network};
pub use models::NetworkConfig;
