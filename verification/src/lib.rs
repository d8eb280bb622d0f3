//! Verified core of a desktop network monitor: parsing of command output,
//! MAC/OUI handling, web-portal scanning grammars, packet classification,
//! and the bookkeeping decisions behind the device and IP databases.

pub mod decimal;
pub mod ipv4;
pub mod mac;
pub mod packet;
pub mod portal;
pub mod probe;
pub mod registry;
pub mod store;
pub mod text;
