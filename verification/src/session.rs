//! The scanning session: whether the chosen adapter is scanning, and the
//! step from scanning to talking to one device.

use vstd::prelude::*;

verus! {

/// Where a scanning session stands.
#[derive(Debug, Clone, Copy, PartialEq, Eq, Structural)]
pub enum ScanPhase {
    /// No adapter is available: nothing scans.
    NoAdapter,
    /// The adapter with this index scans.
    Scanning(usize),
    /// The scan of this adapter is stopped while a device is connected.
    Connecting(usize),
}

/// A scanning session over the adapter list.
pub struct ScanSession {
    phase: ScanPhase,
}

/// Connecting needs an adapter, and there is none.
#[derive(Debug)]
pub struct NoActiveAdapter;

/// What comes after a successful connection.
pub enum StateAfterScan {
    Speedtest(StateSpeedtest),
}

/// Test of the notification throughput from a device to this client.
pub struct StateSpeedtest {}

impl ScanSession {
    /// Where the session stands.
    pub closed spec fn phase(&self) -> ScanPhase {
        self.phase
    }

    /// Starts a session with the chosen adapter, which starts scanning at
    /// once; without an adapter nothing scans.
    pub fn new(adapter: Option<usize>) -> (session: Self)
        ensures
            session.phase() == match adapter {
                Some(i) => ScanPhase::Scanning(i),
                None => ScanPhase::NoAdapter,
            },
    {
        match adapter {
            Some(i) => ScanSession { phase: ScanPhase::Scanning(i) },
            None => ScanSession { phase: ScanPhase::NoAdapter },
        }
    }

    /// Where the session stands.
    pub fn current_phase(&self) -> (phase: ScanPhase)
        ensures
            phase == self.phase(),
    {
        self.phase
    }

    /// Whether the session's adapter scans.
    pub fn is_scanning(&self) -> (scanning: bool)
        ensures
            scanning == (self.phase() is Scanning),
    {
        match self.phase {
            ScanPhase::Scanning(_) => true,
            _ => false,
        }
    }

    /// Stops the scan to connect to a device: the adapter whose scan is to be
    /// stopped comes back, or `NoActiveAdapter` (and nothing changes) when
    /// the session has no adapter.
    pub fn begin_connect(&mut self) -> (adapter: Result<usize, NoActiveAdapter>)
        requires
            !(old(self).phase() is Connecting),
        ensures
            match old(self).phase() {
                ScanPhase::Scanning(i) => adapter matches Ok(j) && j == i && final(self).phase()
                    == ScanPhase::Connecting(i),
                _ => adapter is Err && final(self).phase() == old(self).phase(),
            },
    {
        match self.phase {
            ScanPhase::Scanning(i) => {
                self.phase = ScanPhase::Connecting(i);
                Ok(i)
            },
            _ => Err(NoActiveAdapter),
        }
    }

    /// Talking to the device failed after the scan was stopped: the adapter
    /// whose scan is to be restarted comes back.
    pub fn connect_failed(&mut self) -> (adapter: usize)
        requires
            old(self).phase() is Connecting,
        ensures
            old(self).phase() == ScanPhase::Connecting(adapter),
            final(self).phase() == ScanPhase::Scanning(adapter),
    {
        match self.phase {
            ScanPhase::Connecting(i) => {
                self.phase = ScanPhase::Scanning(i);
                i
            },
            _ => {
                proof {
                    assert(false);
                }
                0
            },
        }
    }
}

/// Whether a found device with address key `found` is the one asked for:
/// any device when no address was given.
pub fn is_wanted_device(wanted: Option<u64>, found: u64) -> (wanted_one: bool)
    ensures
        wanted_one == (wanted is None || wanted == Some(found)),
{
    match wanted {
        None => true,
        Some(w) => w == found,
    }
}

} // verus!
