//! Hardware-facing data model: interface configuration and status, the
//! bus-id allocator that hands out the lowest free bus number, and the
//! enumeration of available interfaces.

use vstd::prelude::*;
use vstd::string::StringExecFns;

verus! {

/// Configuration for a CAN interface.
#[derive(Debug, Clone)]
pub struct CanConfig {
    /// Bitrate in bits per second.
    pub bitrate: u32,
    /// Enable CAN FD mode.
    pub fd_mode: bool,
    /// Enable listen-only mode.
    pub listen_only: bool,
}

impl Default for CanConfig {
    /// The default configuration: half a megabit, classic CAN, normal mode.
    fn default() -> (r: Self)
        ensures
            r.bitrate == 500_000,
            !r.fd_mode,
            !r.listen_only,
    {
        CanConfig { bitrate: 500_000, fd_mode: false, listen_only: false }
    }
}

/// Status of a CAN interface.
#[derive(Debug, Clone, Copy, PartialEq, Eq, Structural)]
pub enum CanStatus {
    /// Interface is disconnected.
    Disconnected,
    /// Interface is connecting.
    Connecting,
    /// Interface is connected and ready.
    Connected,
    /// Interface has an error.
    Error,
}

/// Status of a managed connection.
#[derive(Debug, Clone, Copy, PartialEq, Eq, Structural)]
pub enum ConnectionStatus {
    Disconnected,
    Connecting,
    Connected,
    Error,
}

/// Type of CAN interface.
#[derive(Debug, Clone, Copy, PartialEq, Eq, Structural)]
pub enum InterfaceType {
    /// USB-CAN serial adapter.
    Serial,
    /// SocketCAN (Linux).
    SocketCan,
    /// Virtual/mock interface.
    Virtual,
    /// Unknown type.
    Unknown,
}

/// Information about an available CAN interface.
#[derive(Debug, Clone)]
pub struct InterfaceInfo {
    /// Interface name/identifier.
    pub name: String,
    /// Interface type.
    pub interface_type: InterfaceType,
    /// Description.
    pub description: Option<String>,
    /// Whether the interface is available for use.
    pub available: bool,
}

/// Statistics for one managed interface.
#[derive(Clone)]
pub struct InterfaceStats {
    /// Bus id of the interface.
    pub bus_id: u8,
    /// Interface name.
    pub interface_name: String,
    /// Current connection status.
    pub status: ConnectionStatus,
    /// Number of messages received.
    pub messages_received: u64,
    /// Number of messages sent.
    pub messages_sent: u64,
    /// Number of errors.
    pub errors: u64,
}

/// A sequence of bus ids with `v` inserted at its sorted position, or left
/// alone if `v` is already present.
pub open spec fn insert_sorted(s: Seq<u8>, v: u8) -> Seq<u8>
    decreases s.len(),
{
    if s.len() == 0 {
        seq![v]
    } else if v < s[0] {
        seq![v] + s
    } else if v == s[0] {
        s
    } else {
        seq![s[0]] + insert_sorted(s.drop_first(), v)
    }
}

/// Strictly ascending: sorted with no duplicates.
pub open spec fn strictly_sorted(s: Seq<u8>) -> bool {
    forall|i: int, j: int| 0 <= i < j < s.len() ==> s[i] < s[j]
}

/// Allocator for bus ids: freed ids are reused lowest-first, and fresh ids
/// count up from zero.
#[derive(Debug, Clone)]
pub struct BusIdAllocator {
    /// Freed ids available for reuse, strictly ascending.
    pub available: Vec<u8>,
    /// Next fresh id to hand out when no freed id exists.
    pub next_id: u8,
}

impl BusIdAllocator {
    /// The free list is strictly ascending, so its head is the lowest
    /// available id.
    pub open spec fn wf(self) -> bool {
        strictly_sorted(self.available@)
    }

    /// An allocator with no freed ids, counting from zero.
    pub fn new() -> (r: Self)
        ensures
            r.available@ == Seq::<u8>::empty(),
            r.next_id == 0,
            r.wf(),
    {
        BusIdAllocator { available: Vec::new(), next_id: 0 }
    }

    /// Hand out the lowest freed id, or the next fresh one.
    pub fn allocate(&mut self) -> (r: u8)
        requires
            old(self).wf(),
        ensures
            final(self).wf(),
            old(self).available@.len() > 0 ==> r == old(self).available@[0]
                && final(self).available@ == old(self).available@.drop_first()
                && final(self).next_id == old(self).next_id,
            old(self).available@.len() == 0 ==> r == old(self).next_id
                && final(self).available@ == old(self).available@
                && final(self).next_id == (if old(self).next_id == 255 {
                0
            } else {
                (old(self).next_id + 1) as u8
            }),
    {
        if self.available.len() > 0 {
            let id = self.available.remove(0);
            proof {
                assert(self.available@ =~= old(self).available@.drop_first());
            }
            id
        } else {
            let id = self.next_id;
            self.next_id = if id == 255 {
                0
            } else {
                id + 1
            };
            id
        }
    }

    /// Return an id to the free list, keeping it sorted; freeing an id
    /// twice has no further effect.
    pub fn free(&mut self, bus_id: u8)
        requires
            old(self).wf(),
        ensures
            final(self).wf(),
            final(self).available@ == insert_sorted(old(self).available@, bus_id),
            final(self).next_id == old(self).next_id,
    {
        let ghost orig = self.available@;
        let mut i: usize = 0;
        proof {
            assert(orig.skip(0) =~= orig);
            assert(insert_sorted(orig, bus_id) =~= orig.take(0) + insert_sorted(
                orig.skip(0),
                bus_id,
            ));
        }
        while i < self.available.len() && self.available[i] < bus_id
            invariant
                i <= orig.len(),
                self.available@ == orig,
                self.next_id == old(self).next_id,
                strictly_sorted(orig),
                forall|j: int| 0 <= j < i ==> orig[j] < bus_id,
                insert_sorted(orig, bus_id) =~= orig.take(i as int) + insert_sorted(
                    orig.skip(i as int),
                    bus_id,
                ),
            decreases orig.len() - i,
        {
            proof {
                assert(orig.skip(i as int)[0] == orig[i as int]);
                assert(orig.skip(i as int).drop_first() =~= orig.skip(i as int + 1));
                assert(orig.take(i as int + 1) =~= orig.take(i as int) + seq![orig[i as int]]);
                assert(orig.take(i as int) + (seq![orig[i as int]] + insert_sorted(
                    orig.skip(i as int + 1),
                    bus_id,
                )) =~= orig.take(i as int + 1) + insert_sorted(orig.skip(i as int + 1), bus_id));
            }
            i = i + 1;
        }
        proof {
            if i < orig.len() {
                assert(orig.skip(i as int)[0] == orig[i as int]);
            }
        }
        if i < self.available.len() && self.available[i] == bus_id {
            // already free
            proof {
                assert(insert_sorted(orig.skip(i as int), bus_id) =~= orig.skip(i as int));
                assert(orig.take(i as int) + orig.skip(i as int) =~= orig);
            }
            return ;
        }
        self.available.insert(i, bus_id);
        proof {
            if i < orig.len() {
                assert(insert_sorted(orig.skip(i as int), bus_id) =~= seq![bus_id] + orig.skip(
                    i as int,
                ));
            } else {
                assert(orig.skip(i as int) =~= Seq::<u8>::empty());
                assert(insert_sorted(orig.skip(i as int), bus_id) =~= seq![bus_id]);
            }
            assert(self.available@ =~= orig.take(i as int) + insert_sorted(
                orig.skip(i as int),
                bus_id,
            ));
            assert(self.available@ =~= insert_sorted(orig, bus_id));
            assert forall|a: int, b: int|
                0 <= a < b < self.available@.len() implies self.available@[a]
                < self.available@[b] by {
                assert(forall|j: int| 0 <= j < i ==> orig[j] < bus_id);
                assert(forall|j: int|
                    i <= j < orig.len() ==> #[trigger] orig[j] >= bus_id && orig[j] != bus_id);
            }
        }
    }

    /// Reset the allocator: no freed ids, counting from zero again.
    pub fn free_all(&mut self)
        ensures
            final(self).available@ == Seq::<u8>::empty(),
            final(self).next_id == 0,
            final(self).wf(),
    {
        self.available = Vec::new();
        self.next_id = 0;
    }
}

/// List the virtual mock interfaces: a single always-available entry.
pub fn list_mock_interfaces() -> (r: Vec<InterfaceInfo>)
    ensures
        r@.len() == 1,
        r@[0].name@ == "mock0"@,
        r@[0].interface_type == InterfaceType::Virtual,
        r@[0].available,
        r@[0].description matches Some(d) && d@ == "Virtual CAN interface for testing"@,
{
    let info = InterfaceInfo {
        name: String::from_str("mock0"),
        interface_type: InterfaceType::Virtual,
        description: Some(String::from_str("Virtual CAN interface for testing")),
        available: true,
    };
    let mut r: Vec<InterfaceInfo> = Vec::new();
    r.push(info);
    r
}

/// Relies on tokio-serial's `available_ports`: the names of the serial
/// ports the system reports. Which ports exist depends on the machine, so
/// nothing is promised of the result.
#[verifier::external_body]
fn list_serial_ports() -> Vec<String> {
    match tokio_serial::available_ports() {
        Ok(ports) => ports.into_iter().map(|p| p.port_name).collect(),
        Err(_) => Vec::new(),
    }
}

/// List the serial CAN interfaces the system offers. Whatever ports the
/// system reports, every entry is an available serial interface whose
/// description names its port.
pub fn list_interfaces() -> (r: Vec<InterfaceInfo>)
    ensures
        forall|i: int|
            0 <= i < r@.len() ==> (#[trigger] r@[i]).interface_type == InterfaceType::Serial
                && r@[i].available && (r@[i].description matches Some(d) && d@ == "Serial port: "@
                + r@[i].name@),
{
    let ports = list_serial_ports();
    let mut r: Vec<InterfaceInfo> = Vec::new();
    let mut i: usize = 0;
    while i < ports.len()
        invariant
            forall|j: int|
                0 <= j < r@.len() ==> (#[trigger] r@[j]).interface_type == InterfaceType::Serial
                    && r@[j].available && (r@[j].description matches Some(d) && d@
                    == "Serial port: "@ + r@[j].name@),
        decreases ports.len() - i,
    {
        let name: String = ports[i].clone();
        let description: String = String::from_str("Serial port: ").concat(name.as_str());
        r.push(
            InterfaceInfo {
                name,
                interface_type: InterfaceType::Serial,
                description: Some(description),
                available: true,
            },
        );
        i = i + 1;
    }
    r
}

} // verus!
