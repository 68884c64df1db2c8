//! A small custom protocol carried in raw Ethernet frames: the wire header,
//! its checksum, frame assembly and validation, MAC address text parsing,
//! and the polling sender/receiver logic that runs against any Ethernet MAC
//! driver.

pub mod protocol;
pub mod frame;
pub mod eth_driver;
pub mod sender;
pub mod receiver;
pub mod mac;
pub mod firmware;
