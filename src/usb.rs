//! The decisions behind selecting and switching a device's USB interface.
use vstd::prelude::*;

verus! {

/// Interface class and sub-class of the QuickTime interface.
pub const QT_INTERFACE_CLASS: u8 = 0xFF;
pub const QT_INTERFACE_SUB_CLASS: u8 = 0x2A;

/// The vendor request that switches the QuickTime configuration.
pub const QT_ACTIVATION_REQUEST: u8 = 0x52;

/// Whether an interface with this class and sub-class is the QuickTime one.
pub fn is_qt_interface(class_code: u8, sub_class_code: u8) -> (r: bool)
    ensures
        r == (class_code == QT_INTERFACE_CLASS && sub_class_code == QT_INTERFACE_SUB_CLASS),
{
    class_code == QT_INTERFACE_CLASS && sub_class_code == QT_INTERFACE_SUB_CLASS
}

/// The index of the first (class, sub-class) pair that is the QuickTime
/// interface.
pub fn find_qt_interface(interfaces: &Vec<(u8, u8)>) -> (r: Option<usize>)
    ensures
        match r {
            Some(i) => i < interfaces@.len() && interfaces@[i as int] == (
                QT_INTERFACE_CLASS,
                QT_INTERFACE_SUB_CLASS,
            ) && forall|j: int| 0 <= j < i ==> #[trigger] interfaces@[j] != (
                QT_INTERFACE_CLASS,
                QT_INTERFACE_SUB_CLASS,
            ),
            None => forall|j: int| 0 <= j < interfaces@.len() ==> #[trigger] interfaces@[j] != (
                QT_INTERFACE_CLASS,
                QT_INTERFACE_SUB_CLASS,
            ),
        },
{
    let mut i: usize = 0;
    while i < interfaces.len()
        invariant
            i <= interfaces@.len(),
            forall|j: int| 0 <= j < i ==> #[trigger] interfaces@[j] != (
                QT_INTERFACE_CLASS,
                QT_INTERFACE_SUB_CLASS,
            ),
        decreases interfaces@.len() - i,
    {
        let (c, s) = interfaces[i];
        if is_qt_interface(c, s) {
            return Some(i);
        }
        i = i + 1;
    }
    None
}

/// Whether the device must be told to switch: the QuickTime interface is
/// present exactly when it should be, or not.
pub fn needs_switch(present: bool, enabled: bool) -> (r: bool)
    ensures
        r == (present != enabled),
{
    present != enabled
}

/// The wIndex of the activation request: 2 to switch on, 0 to switch off.
pub fn activation_index(enabled: bool) -> (r: u16)
    ensures
        r == if enabled {
            2u16
        } else {
            0u16
        },
{
    if enabled {
        2
    } else {
        0
    }
}

/// Whether `serial` opens with `prefix`, byte for byte.
pub fn serial_matches(prefix: &[u8], serial: &[u8]) -> (r: bool)
    ensures
        r == (prefix@.len() <= serial@.len() && serial@.subrange(0, prefix@.len() as int)
            == prefix@),
{
    if prefix.len() > serial.len() {
        return false;
    }
    let mut i: usize = 0;
    while i < prefix.len()
        invariant
            i <= prefix@.len() <= serial@.len(),
            serial@.subrange(0, i as int) == prefix@.subrange(0, i as int),
        decreases prefix@.len() - i,
    {
        if prefix[i] != serial[i] {
            assert(serial@.subrange(0, prefix@.len() as int)[i as int] != prefix@[i as int]);
            return false;
        }
        i = i + 1;
        assert(serial@.subrange(0, i as int) =~= prefix@.subrange(0, i as int));
    }
    assert(prefix@.subrange(0, prefix@.len() as int) =~= prefix@);
    true
}

/// An endpoint of the QuickTime interface.
#[derive(Clone, Copy, Debug, PartialEq, Eq, Structural)]
pub struct EndpointInfo {
    pub address: u8,
    pub max_packet_size: u16,
    pub is_in: bool,
    pub is_bulk: bool,
}

/// The bulk endpoints to read from and write to.
#[derive(Clone, Copy, Debug, PartialEq, Eq, Structural)]
pub struct BulkEndpoints {
    pub in_address: u8,
    pub in_max_packet_size: u16,
    pub out_address: u8,
    pub out_max_packet_size: u16,
}

/// The last bulk IN and the last bulk OUT endpoint among `eps`; zeros
/// where there is none.
pub open spec fn bulk_endpoints_of(eps: Seq<EndpointInfo>) -> BulkEndpoints
    decreases eps.len(),
{
    if eps.len() == 0 {
        BulkEndpoints { in_address: 0, in_max_packet_size: 0, out_address: 0, out_max_packet_size: 0 }
    } else {
        let prev = bulk_endpoints_of(eps.drop_last());
        let e = eps.last();
        if e.is_bulk && e.is_in {
            BulkEndpoints { in_address: e.address, in_max_packet_size: e.max_packet_size, ..prev }
        } else if e.is_bulk && !e.is_in {
            BulkEndpoints { out_address: e.address, out_max_packet_size: e.max_packet_size, ..prev }
        } else {
            prev
        }
    }
}

/// Records the bulk IN and OUT endpoints of the interface.
pub fn select_bulk_endpoints(eps: &Vec<EndpointInfo>) -> (r: BulkEndpoints)
    ensures
        r == bulk_endpoints_of(eps@),
{
    let mut r = BulkEndpoints {
        in_address: 0,
        in_max_packet_size: 0,
        out_address: 0,
        out_max_packet_size: 0,
    };
    let mut i: usize = 0;
    while i < eps.len()
        invariant
            i <= eps@.len(),
            r == bulk_endpoints_of(eps@.subrange(0, i as int)),
        decreases eps@.len() - i,
    {
        let e = eps[i];
        proof {
            assert(eps@.subrange(0, i + 1).drop_last() =~= eps@.subrange(0, i as int));
        }
        if e.is_bulk && e.is_in {
            r.in_address = e.address;
            r.in_max_packet_size = e.max_packet_size;
        } else if e.is_bulk && !e.is_in {
            r.out_address = e.address;
            r.out_max_packet_size = e.max_packet_size;
        }
        i = i + 1;
    }
    assert(eps@.subrange(0, eps@.len() as int) =~= eps@);
    r
}

} // verus!
