//! The plain records that cross the boundary to compiled applications, and the conversions
//! into them.

use vstd::prelude::*;
use crate::data_types::{Amount, Resources};

verus! {

/// An amount split into its two 64-bit halves.
#[derive(Debug, Clone, Copy, PartialEq, Eq, Structural)]
pub struct WitAmount {
    pub lower_half: u64,
    pub upper_half: u64,
}

impl From<Amount> for WitAmount {
    fn from(host: Amount) -> (r: WitAmount)
        ensures
            r.lower_half == host.0 % 0x1_0000_0000_0000_0000,
            r.upper_half == host.0 / 0x1_0000_0000_0000_0000,
    {
        WitAmount { lower_half: host.lower_half(), upper_half: host.upper_half() }
    }
}

impl vstd::std_specs::convert::FromSpecImpl<Amount> for WitAmount {
    open spec fn obeys_from_spec() -> bool {
        true
    }

    open spec fn from_spec(host: Amount) -> WitAmount {
        WitAmount {
            lower_half: (host.0 % 0x1_0000_0000_0000_0000) as u64,
            upper_half: (host.0 / 0x1_0000_0000_0000_0000) as u64,
        }
    }
}

/// The resources an application may spend, field for field.
#[derive(Debug, Clone, Copy, PartialEq, Eq, Structural)]
pub struct WitResources {
    pub fuel: u64,
    pub read_operations: u32,
    pub write_operations: u32,
    pub bytes_to_read: u32,
    pub bytes_to_write: u32,
    pub messages: u32,
    pub message_size: u32,
    pub storage_size_delta: u32,
}

/// The record of the resources, field for field.
pub open spec fn wit_resources(r: Resources) -> WitResources {
    WitResources {
        fuel: r.fuel,
        read_operations: r.read_operations,
        write_operations: r.write_operations,
        bytes_to_read: r.bytes_to_read,
        bytes_to_write: r.bytes_to_write,
        messages: r.messages,
        message_size: r.message_size,
        storage_size_delta: r.storage_size_delta,
    }
}

impl From<Resources> for WitResources {
    fn from(resources: Resources) -> (r: WitResources)
        ensures
            r == wit_resources(resources),
    {
        WitResources {
            fuel: resources.fuel,
            read_operations: resources.read_operations,
            write_operations: resources.write_operations,
            bytes_to_read: resources.bytes_to_read,
            bytes_to_write: resources.bytes_to_write,
            messages: resources.messages,
            message_size: resources.message_size,
            storage_size_delta: resources.storage_size_delta,
        }
    }
}

impl vstd::std_specs::convert::FromSpecImpl<Resources> for WitResources {
    open spec fn obeys_from_spec() -> bool {
        true
    }

    open spec fn from_spec(r: Resources) -> WitResources {
        wit_resources(r)
    }
}

} // verus!
