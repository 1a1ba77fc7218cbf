use vstd::prelude::*;
use sysinfo::{Pid, ProcessRefreshKind, ProcessesToUpdate, RefreshKind, System};
use crate::registry::saturating_sum;

verus! {

#[verifier::external_type_specification]
#[verifier::external_body]
pub struct ExSystem(System);

/// The ids of the processes listed in a snapshot of the process table.
pub uninterp spec fn listed_pids(s: System) -> Set<u32>;

/// Relies on `System::new_with_specifics`: a snapshot that tracks processes,
/// taken once on creation. What it lists depends on the machine.
#[verifier::external_body]
fn process_snapshot() -> (r: System) {
    System::new_with_specifics(RefreshKind::nothing().with_processes(ProcessRefreshKind::everything()))
}

/// Relies on `System::refresh_processes`: the snapshot is taken anew from the
/// live process table, and dead processes are dropped from it. What it then
/// lists depends on the machine.
#[verifier::external_body]
fn refresh_snapshot(s: &mut System) {
    s.refresh_processes(ProcessesToUpdate::All, true);
}

/// Relies on `System::process` with `Pid::from_u32`: a lookup of the id in
/// the snapshot's process table, which it leaves unchanged.
#[verifier::external_body]
fn snapshot_lists(s: &System, pid: u32) -> (r: bool)
    ensures
        r == listed_pids(*s).contains(pid),
{
    s.process(Pid::from_u32(pid)).is_some()
}

/// Liveness of process ids, as seen in the latest snapshot of the process table.
pub struct ProcessMonitor {
    snapshot: System,
    snapshots: u64,
}

impl ProcessMonitor {
    /// The ids alive in the latest snapshot.
    pub closed spec fn live(&self) -> Set<u32> {
        listed_pids(self.snapshot)
    }

    /// How many times the snapshot was taken anew since creation.
    pub closed spec fn snapshot_count(&self) -> u64 {
        self.snapshots
    }

    pub fn new() -> (r: Self)
        ensures
            r.snapshot_count() == 0,
    {
        ProcessMonitor { snapshot: process_snapshot(), snapshots: 0 }
    }

    pub fn snapshots(&self) -> (r: u64)
        ensures
            r == self.snapshot_count(),
    {
        self.snapshots
    }

    /// Takes a fresh snapshot of the process table.
    pub fn refresh(&mut self)
        ensures
            final(self).snapshot_count() == saturating_sum(old(self).snapshot_count(), 1),
    {
        refresh_snapshot(&mut self.snapshot);
        self.snapshots = self.snapshots.saturating_add(1);
    }

    /// Whether `pid` is listed in the latest snapshot.
    pub fn is_alive(&self, pid: u32) -> (r: bool)
        ensures
            r == self.live().contains(pid),
    {
        snapshot_lists(&self.snapshot, pid)
    }
}

} // verus!
