//! A WHOIS and RDAP service for the dn42 registry.
pub mod text;
pub mod protocol;
pub mod types;
pub mod response;
pub mod ip;
pub mod cidr;
pub mod rpsl;
pub mod registry;
pub mod rdap;
pub mod net;
pub mod order;
pub mod server;
pub mod socket_activation;
