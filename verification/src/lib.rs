//! Verified core of the Double Compresso Bluetooth client: GATT identifiers,
//! adapter selection, firmware version parsing and the bookkeeping of
//! discovered devices.

pub mod gatt;
pub mod devices;
pub mod cleanup;
pub mod text;
pub mod adapters;
pub mod version;
pub mod address;
pub mod scan;
pub mod session;
