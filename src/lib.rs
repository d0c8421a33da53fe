//! Address targets (an IPv4 or IPv6 address, optionally with a CIDR prefix
//! length) and validated DNS host names.
pub mod prefix;
pub mod text;
pub mod ipv4;
pub mod ipv6;
pub mod inet;
pub mod dns;
