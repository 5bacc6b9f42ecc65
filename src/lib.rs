//! Address allocation, topology, DHCP and internal DNS decisions for a
//! virtual private-network fabric.
pub mod dhcp;
pub mod dns;
pub mod ipam;
pub mod vpc;
