//! The RDAP (RFC 9082/9083) view of the registry.
pub mod url;
pub mod bootstrap;
pub mod model;
pub mod mapper;
pub mod http;
