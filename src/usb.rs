//! Classification of attached devices and assignment of their bulk endpoints.
use vstd::prelude::*;

use crate::error::BootError;

verus! {

/// The vendor id that devices in boot-assist mode report.
pub const BROADCOM_VENDOR_ID: u16 = 0x0a5c;

/// The hardware generation of an attached chip, told by its product id.
#[derive(Clone, Copy, Debug, PartialEq, Eq, Structural)]
pub enum Generation {
    /// Product id 0x2763.
    Legacy2763,
    /// Product id 0x2764.
    Legacy2764,
    /// Product id 0x2711.
    Bcm2711,
    /// Product id 0x2712.
    Bcm2712,
}

pub open spec fn generation_of(product_id: u16) -> Option<Generation> {
    if product_id == 0x2763 {
        Some(Generation::Legacy2763)
    } else if product_id == 0x2764 {
        Some(Generation::Legacy2764)
    } else if product_id == 0x2711 {
        Some(Generation::Bcm2711)
    } else if product_id == 0x2712 {
        Some(Generation::Bcm2712)
    } else {
        None
    }
}

pub open spec fn is_legacy(g: Generation) -> bool {
    g == Generation::Legacy2763 || g == Generation::Legacy2764
}

/// The (bulk-out, bulk-in) endpoint pair of a generation.
pub open spec fn endpoints_of(g: Generation) -> (u8, u8) {
    if is_legacy(g) {
        (1, 2)
    } else {
        (3, 4)
    }
}

/// The generation of an accepted product id, or `None` for any other id.
pub fn generation_for_product(product_id: u16) -> (r: Option<Generation>)
    ensures
        r == generation_of(product_id),
{
    match product_id {
        0x2763 => Some(Generation::Legacy2763),
        0x2764 => Some(Generation::Legacy2764),
        0x2711 => Some(Generation::Bcm2711),
        0x2712 => Some(Generation::Bcm2712),
        _ => None,
    }
}

/// The (bulk-out, bulk-in) endpoint pair of a generation: 1 and 2 for the
/// legacy generations, 3 and 4 for the newer ones.
pub fn endpoints(generation: Generation) -> (r: (u8, u8))
    ensures
        r == endpoints_of(generation),
{
    match generation {
        Generation::Legacy2763 | Generation::Legacy2764 => (1, 2),
        Generation::Bcm2711 | Generation::Bcm2712 => (3, 4),
    }
}

/// What the transport reports of one attached device.
pub struct DeviceInfo {
    pub vendor_id: u16,
    pub product_id: u16,
    pub serial_number: Option<String>,
}

/// Which attached device to take.
pub enum DeviceFilter {
    /// The first accepted device of this vendor id.
    Vendor(u16),
    /// The accepted device of the fixed vendor id with this serial number.
    Serial(String),
}

/// Whether `filter` takes the device `info`.
pub open spec fn accepts(filter: DeviceFilter, info: DeviceInfo) -> bool {
    let taken = match filter {
        DeviceFilter::Vendor(v) => info.vendor_id == v,
        DeviceFilter::Serial(s) => info.vendor_id == BROADCOM_VENDOR_ID && match info.serial_number {
            Some(sn) => sn@ == s@,
            None => false,
        },
    };
    generation_of(info.product_id) is Some && taken
}

/// Whether `filter` takes the device `info`.
pub fn device_matches(info: &DeviceInfo, filter: &DeviceFilter) -> (r: bool)
    ensures
        r == accepts(*filter, *info),
{
    match generation_for_product(info.product_id) {
        None => {
            return false;
        },
        Some(_) => {},
    }
    match filter {
        DeviceFilter::Vendor(v) => {
            let v: u16 = *v;
            info.vendor_id == v
        },
        DeviceFilter::Serial(s) => {
            if info.vendor_id != BROADCOM_VENDOR_ID {
                return false;
            }
            match &info.serial_number {
                Some(sn) => sn.eq(s),
                None => false,
            }
        },
    }
}

/// A device session: the identity of the device taken and its endpoints.
pub struct DeviceSession {
    pub vendor_id: u16,
    pub product_id: u16,
    pub generation: Generation,
    pub serial_number: Option<String>,
    pub out_ep: u8,
    pub in_ep: u8,
}

impl DeviceSession {
    /// The session for a device of an accepted product id.
    pub fn from_info(info: &DeviceInfo) -> (r: Option<DeviceSession>)
        ensures
            match r {
                Some(s) => {
                    &&& generation_of(info.product_id) == Some(s.generation)
                    &&& (s.out_ep, s.in_ep) == endpoints_of(s.generation)
                    &&& s.vendor_id == info.vendor_id
                    &&& s.product_id == info.product_id
                    &&& s.serial_number == info.serial_number
                },
                None => generation_of(info.product_id) is None,
            },
    {
        match generation_for_product(info.product_id) {
            Some(generation) => {
                let (out_ep, in_ep) = endpoints(generation);
                Some(
                    DeviceSession {
                        vendor_id: info.vendor_id,
                        product_id: info.product_id,
                        generation,
                        serial_number: info.serial_number.clone(),
                        out_ep,
                        in_ep,
                    },
                )
            },
            None => None,
        }
    }

    pub fn bcm2711(&self) -> (r: bool)
        ensures
            r == (self.generation == Generation::Bcm2711),
    {
        self.generation == Generation::Bcm2711
    }

    pub fn bcm2712(&self) -> (r: bool)
        ensures
            r == (self.generation == Generation::Bcm2712),
    {
        self.generation == Generation::Bcm2712
    }
}

/// Picks the first listed device that `filter` takes and makes its session;
/// fails with `NotFound` when none is taken.
pub fn locate_device(devices: &Vec<DeviceInfo>, filter: &DeviceFilter) -> (r: Result<(usize, DeviceSession), BootError>)
    ensures
        match r {
            Ok((i, s)) => {
                &&& i < devices@.len()
                &&& accepts(*filter, devices@[i as int])
                &&& forall|j: int| 0 <= j < i ==> !accepts(*filter, #[trigger] devices@[j])
                &&& generation_of(devices@[i as int].product_id) == Some(s.generation)
                &&& (s.out_ep, s.in_ep) == endpoints_of(s.generation)
                &&& s.vendor_id == devices@[i as int].vendor_id
                &&& s.product_id == devices@[i as int].product_id
                &&& s.serial_number == devices@[i as int].serial_number
            },
            Err(e) => {
                &&& e == BootError::NotFound
                &&& forall|j: int| 0 <= j < devices@.len() ==> !accepts(*filter, #[trigger] devices@[j])
            },
        },
{
    let mut i: usize = 0;
    while i < devices.len()
        invariant
            i <= devices@.len(),
            forall|j: int| 0 <= j < i ==> !accepts(*filter, #[trigger] devices@[j]),
        decreases devices@.len() - i,
    {
        if device_matches(&devices[i], filter) {
            match DeviceSession::from_info(&devices[i]) {
                Some(s) => {
                    return Ok((i, s));
                },
                None => {},
            }
        }
        i = i + 1;
    }
    Err(BootError::NotFound)
}

/// Endpoints are fixed by the product id: the newer generations always get
/// the pair (3, 4), the legacy ones always the pair (1, 2).
pub proof fn lemma_endpoints_by_product(product_id: u16)
    ensures
        (product_id == 0x2711 || product_id == 0x2712) ==> generation_of(product_id) is Some
            && endpoints_of(generation_of(product_id)->Some_0) == (3u8, 4u8),
        (product_id == 0x2763 || product_id == 0x2764) ==> generation_of(product_id) is Some
            && endpoints_of(generation_of(product_id)->Some_0) == (1u8, 2u8),
        generation_of(product_id) is Some ==> (product_id == 0x2711 || product_id == 0x2712
            || product_id == 0x2763 || product_id == 0x2764),
{
}

} // verus!
