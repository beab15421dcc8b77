//! Device inventory from Ethernet traffic.
//!
//! While frames come in, their MACs are counted and nothing else is done. The vendor of a MAC is
//! looked up once, when the report is made.

pub mod fxmap;
pub mod text;
pub mod mac;
pub mod prefix;
pub mod inventory;
pub mod oui;
pub mod ranking;
pub mod report;
pub mod capture;
pub mod fanout;
