//! A hardware abstraction layer for the 1-Wire bus: the device search
//! (binary-tree discrepancy search over 64-bit ROM identifiers) as a verified
//! state machine, the CRC-8 check of identifiers, and a model of an ideal bus
//! over which the search is proved to find every device once, in order.
pub mod address;
pub mod bus_model;
pub mod commands;
pub mod crc;
pub mod device_search;
pub mod error;
pub mod search_state;
pub mod triplet;
