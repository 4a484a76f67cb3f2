//! Connector scanning: diffing connector state against the previous scan.
//!
//! Each scan takes the hardware's current connector report and the snapshot
//! recorded by the previous scan, and yields Connected/Disconnected
//! transition events.  A connector reported without an assigned controller
//! is skipped.  A disconnection carries the same (connector, controller)
//! identity that was recorded at connection time, so the surface keyed by
//! that controller can be found and removed.

use vstd::prelude::*;

verus! {

/// What the hardware reports for one connector during a scan.
#[derive(Clone, Copy, PartialEq, Eq, Structural, Debug)]
pub struct ConnectorReport {
    /// The connector's handle.
    pub connector: u64,
    /// Whether a display is attached.
    pub connected: bool,
    /// The controller (CRTC) assigned to drive it, when one is available.
    pub crtc: Option<u64>,
}

/// One (connector, controller) pairing recorded as connected.
#[derive(Clone, Copy, PartialEq, Eq, Structural, Debug)]
pub struct ScanEntry {
    pub connector: u64,
    pub crtc: u64,
}

/// A transition observed between two scans.
#[derive(Clone, Copy, PartialEq, Eq, Structural, Debug)]
pub enum ScanEvent {
    Connected { connector: u64, crtc: u64 },
    Disconnected { connector: u64, crtc: u64 },
}

/// Whether the report lists `connector` as connected.
pub open spec fn report_has_connected(report: Seq<ConnectorReport>, connector: u64) -> bool {
    exists|i: int| 0 <= i < report.len() && (#[trigger] report[i]).connector == connector
        && report[i].connected
}

/// Whether the previous scan recorded `connector` as connected.
pub open spec fn snapshot_has(entries: Seq<ScanEntry>, connector: u64) -> bool {
    exists|i: int| 0 <= i < entries.len() && (#[trigger] entries[i]).connector == connector
}

/// Disconnection events: one per previously recorded pairing whose
/// connector the report no longer lists as connected, in recorded order,
/// carrying the controller recorded at connection time.
pub open spec fn spec_disconnect_events(
    entries: Seq<ScanEntry>,
    report: Seq<ConnectorReport>,
) -> Seq<ScanEvent>
    decreases entries.len(),
{
    if entries.len() == 0 {
        Seq::empty()
    } else {
        let rest = spec_disconnect_events(entries.drop_last(), report);
        let e = entries.last();
        if !report_has_connected(report, e.connector) {
            rest.push(ScanEvent::Disconnected { connector: e.connector, crtc: e.crtc })
        } else {
            rest
        }
    }
}

/// Connection events: one per reported connector that is connected, has an
/// assigned controller, and was not recorded before; in report order.
pub open spec fn spec_connect_events(
    report: Seq<ConnectorReport>,
    entries: Seq<ScanEntry>,
) -> Seq<ScanEvent>
    decreases report.len(),
{
    if report.len() == 0 {
        Seq::empty()
    } else {
        let rest = spec_connect_events(report.drop_last(), entries);
        let r = report.last();
        if r.connected && r.crtc is Some && !snapshot_has(entries, r.connector) {
            rest.push(ScanEvent::Connected { connector: r.connector, crtc: r.crtc.unwrap() })
        } else {
            rest
        }
    }
}

/// The recorded pairings that survive the scan: those whose connector the
/// report still lists as connected, with their original controllers.
pub open spec fn spec_kept_entries(
    entries: Seq<ScanEntry>,
    report: Seq<ConnectorReport>,
) -> Seq<ScanEntry>
    decreases entries.len(),
{
    if entries.len() == 0 {
        Seq::empty()
    } else {
        let rest = spec_kept_entries(entries.drop_last(), report);
        let e = entries.last();
        if report_has_connected(report, e.connector) {
            rest.push(e)
        } else {
            rest
        }
    }
}

/// The pairings newly recorded by the scan, mirroring `spec_connect_events`.
pub open spec fn spec_connect_entries(
    report: Seq<ConnectorReport>,
    entries: Seq<ScanEntry>,
) -> Seq<ScanEntry>
    decreases report.len(),
{
    if report.len() == 0 {
        Seq::empty()
    } else {
        let rest = spec_connect_entries(report.drop_last(), entries);
        let r = report.last();
        if r.connected && r.crtc is Some && !snapshot_has(entries, r.connector) {
            rest.push(ScanEntry { connector: r.connector, crtc: r.crtc.unwrap() })
        } else {
            rest
        }
    }
}

/// Per-device connector scan state: the pairings recorded as connected by
/// the most recent scan.
pub struct DrmScanner {
    pub entries: Vec<ScanEntry>,
}

impl View for DrmScanner {
    type V = Seq<ScanEntry>;

    open spec fn view(&self) -> Seq<ScanEntry> {
        self.entries@
    }
}

/// Whether `report` lists `connector` as connected (executable form).
fn report_contains_connected(report: &Vec<ConnectorReport>, connector: u64) -> (found: bool)
    ensures
        found == report_has_connected(report@, connector),
{
    let mut i: usize = 0;
    while i < report.len()
        invariant
            0 <= i <= report@.len(),
            forall|j: int| 0 <= j < i ==> !((#[trigger] report@[j]).connector == connector
                && report@[j].connected),
        decreases report@.len() - i,
    {
        if report[i].connector == connector && report[i].connected {
            return true;
        }
        i += 1;
    }
    false
}

impl DrmScanner {
    /// A scanner that has not recorded any connected pairing yet.
    pub fn new() -> (r: DrmScanner)
        ensures
            r@ =~= Seq::<ScanEntry>::empty(),
    {
        DrmScanner { entries: Vec::new() }
    }

    /// Whether the previous scan recorded `connector` (executable form).
    fn snapshot_contains(&self, connector: u64) -> (found: bool)
        ensures
            found == snapshot_has(self@, connector),
    {
        let mut i: usize = 0;
        while i < self.entries.len()
            invariant
                0 <= i <= self@.len(),
                forall|j: int| 0 <= j < i ==> (#[trigger] self@[j]).connector != connector,
            decreases self@.len() - i,
        {
            if self.entries[i].connector == connector {
                return true;
            }
            i += 1;
        }
        false
    }

    /// Diff the hardware report against the previous scan.  Returns the
    /// disconnection events (in recorded order) followed by the connection
    /// events (in report order), and records the new snapshot: the pairings
    /// that survived plus the ones just connected.
    pub fn scan_connectors(&mut self, report: &Vec<ConnectorReport>) -> (events: Vec<ScanEvent>)
        ensures
            events@ =~= spec_disconnect_events(old(self)@, report@) + spec_connect_events(
                report@,
                old(self)@,
            ),
            final(self)@ =~= spec_kept_entries(old(self)@, report@) + spec_connect_entries(
                report@,
                old(self)@,
            ),
    {
        let ghost prev = self@;
        let mut events: Vec<ScanEvent> = Vec::new();
        let mut kept: Vec<ScanEntry> = Vec::new();
        let mut i: usize = 0;
        while i < self.entries.len()
            invariant
                0 <= i <= self@.len(),
                self@ == prev,
                events@ =~= spec_disconnect_events(prev.take(i as int), report@),
                kept@ =~= spec_kept_entries(prev.take(i as int), report@),
            decreases self@.len() - i,
        {
            let e = self.entries[i];
            if report_contains_connected(report, e.connector) {
                kept.push(e);
            } else {
                events.push(ScanEvent::Disconnected { connector: e.connector, crtc: e.crtc });
            }
            proof {
                assert(prev.take(i + 1).drop_last() =~= prev.take(i as int));
                assert(prev.take(i + 1).last() == prev[i as int]);
            }
            i += 1;
        }
        proof {
            assert(prev.take(prev.len() as int) =~= prev);
        }

        let mut j: usize = 0;
        while j < report.len()
            invariant
                0 <= j <= report@.len(),
                self@ == prev,
                events@ =~= spec_disconnect_events(prev, report@) + spec_connect_events(
                    report@.take(j as int),
                    prev,
                ),
                kept@ =~= spec_kept_entries(prev, report@) + spec_connect_entries(
                    report@.take(j as int),
                    prev,
                ),
            decreases report@.len() - j,
        {
            let r = report[j];
            if r.connected && !self.snapshot_contains(r.connector) {
                match r.crtc {
                    Some(crtc) => {
                        events.push(ScanEvent::Connected { connector: r.connector, crtc });
                        kept.push(ScanEntry { connector: r.connector, crtc });
                    },
                    None => {},
                }
            }
            proof {
                assert(report@.take(j + 1).drop_last() =~= report@.take(j as int));
                assert(report@.take(j + 1).last() == report@[j as int]);
            }
            j += 1;
        }
        proof {
            assert(report@.take(report@.len() as int) =~= report@);
        }
        self.entries = kept;
        events
    }

    /// The pairings currently recorded as connected, for tearing every
    /// surface of a device down when the device is removed.
    pub fn crtcs(&self) -> (r: Vec<ScanEntry>)
        ensures
            r@ =~= self@,
    {
        let mut r: Vec<ScanEntry> = Vec::new();
        let mut i: usize = 0;
        while i < self.entries.len()
            invariant
                0 <= i <= self@.len(),
                r@ =~= self@.take(i as int),
            decreases self@.len() - i,
        {
            r.push(self.entries[i]);
            proof {
                assert(self@.take(i + 1).drop_last() =~= self@.take(i as int));
            }
            i += 1;
        }
        proof {
            assert(self@.take(self@.len() as int) =~= self@);
        }
        r
    }
}

} // verus!
