//! The command dispatcher's session bookkeeping.
//!
//! The dispatcher tracks which device indices have an active session. Each
//! parsed command becomes one action for the surrounding runtime to carry
//! out. A device goes from unregistered to active only on its first
//! *successful* `add`: `dispatch` asks the runtime to create the session,
//! and the index becomes tracked when the runtime confirms the creation
//! through `session_created`. A construction failure therefore leaves the
//! index unregistered, and a later `add` tries again. Once active, a
//! session lives for the rest of the process: `add` on a tracked index
//! only reconfigures it and never spawns a second capture worker, so one
//! worker per session is kept as an invariant.

use vstd::prelude::*;

use crate::commands::{Command, SettingStep};

verus! {

/// What the runtime must do for one dispatched command.
#[derive(Debug)]
pub enum Action {
    /// Create the session for a new device: open the device, spawn its
    /// capture worker, apply the settings, and confirm the creation
    /// through `session_created`; on a construction failure, report the
    /// error and confirm nothing.
    CreateSession { index: u32, settings: Vec<SettingStep> },
    /// Apply the settings to the already running session.
    ConfigureSession { index: u32, settings: Vec<SettingStep> },
    /// Report the session's buffer: its length and every frame in it.
    EmitFrames { index: u32 },
    /// The command named a device without an active session; report the
    /// error and drop the command.
    ReportUnknownDevice { index: u32 },
    /// Nothing to do.
    NoAction,
}

/// The dispatcher's state: the device indices with an active session.
#[derive(Debug)]
pub struct Dispatcher {
    pub registered: Vec<u32>,
}

/// No device index is tracked twice: each session has exactly one entry
/// and, through `dispatch` and `session_created`, exactly one capture
/// worker.
pub open spec fn indices_unique(s: Seq<u32>) -> bool {
    forall|a: int, b: int| #![trigger s[a], s[b]] 0 <= a < b < s.len() ==> s[a] != s[b]
}

impl Dispatcher {
    /// The indices of the active sessions.
    pub open spec fn spec_registered(&self) -> Seq<u32> {
        self.registered@
    }

    /// A dispatcher with no tracked devices.
    pub fn new() -> (r: Dispatcher)
        ensures
            r.spec_registered() == Seq::<u32>::empty(),
            indices_unique(r.spec_registered()),
    {
        Dispatcher { registered: Vec::new() }
    }

    /// Whether the device index has an active session.
    pub fn is_tracked(&self, index: u32) -> (r: bool)
        ensures
            r == self.spec_registered().contains(index),
    {
        let mut k: usize = 0;
        while k < self.registered.len()
            invariant
                k <= self.registered@.len(),
                forall|q: int| 0 <= q < k ==> self.registered@[q] != index,
            decreases self.registered@.len() - k,
        {
            if self.registered[k] == index {
                proof {
                    assert(self.registered@[k as int] == index);
                }
                return true;
            }
            k = k + 1;
        }
        false
    }

    /// Records that the runtime created the session for `index` -- the
    /// device opened and its capture worker spawned -- completing the
    /// transition from unregistered to active of the first successful
    /// `add`. Confirming an index that is already active changes nothing,
    /// so the one-worker-per-session invariant is kept.
    pub fn session_created(&mut self, index: u32)
        requires
            indices_unique(old(self).spec_registered()),
        ensures
            indices_unique(final(self).spec_registered()),
            old(self).spec_registered().contains(index) ==> final(self).spec_registered() == old(
                self,
            ).spec_registered(),
            !old(self).spec_registered().contains(index) ==> final(self).spec_registered() == old(
                self,
            ).spec_registered().push(index),
    {
        if !self.is_tracked(index) {
            let ghost r0 = self.registered@;
            self.registered.push(index);
            proof {
                assert forall|x: int, y: int|
                    #![trigger self.registered@[x], self.registered@[y]]
                    0 <= x < y < self.registered@.len() implies self.registered@[x]
                    != self.registered@[y] by {
                    if y < r0.len() {
                        assert(self.registered@[x] == r0[x]);
                        assert(self.registered@[y] == r0[y]);
                    } else {
                        assert(self.registered@[y] == index);
                        assert(self.registered@[x] == r0[x]);
                        assert(!r0.contains(index));
                    }
                }
            }
        }
    }

    /// Says what the runtime must do for one parsed command. The session
    /// table does not change here: `add` of an untracked index asks for a
    /// session to be created, and the index becomes active only when the
    /// runtime confirms the creation through `session_created`, so a
    /// failed construction leaves the device free to be added again.
    /// `add` of a tracked index only reconfigures it; `set` and `get` on
    /// an untracked index report an error; a dropped line does nothing.
    pub fn dispatch(&self, cmd: Command) -> (a: Action)
        ensures
            match cmd@ {
                crate::commands::CommandModel::Add { index, settings } => {
                    if self.spec_registered().contains(index) {
                        a matches Action::ConfigureSession { index: i2, settings: s2 } && i2
                            == index && s2@ == settings
                    } else {
                        a matches Action::CreateSession { index: i2, settings: s2 } && i2 == index
                            && s2@ == settings
                    }
                },
                crate::commands::CommandModel::Configure { index, settings } => {
                    if self.spec_registered().contains(index) {
                        a matches Action::ConfigureSession { index: i2, settings: s2 } && i2
                            == index && s2@ == settings
                    } else {
                        a == Action::ReportUnknownDevice { index }
                    }
                },
                crate::commands::CommandModel::Get { index } => {
                    if self.spec_registered().contains(index) {
                        a == Action::EmitFrames { index }
                    } else {
                        a == Action::ReportUnknownDevice { index }
                    }
                },
                crate::commands::CommandModel::Ignored => { a == Action::NoAction },
            },
    {
        match cmd {
            Command::Add { index, settings } => {
                if self.is_tracked(index) {
                    Action::ConfigureSession { index, settings }
                } else {
                    Action::CreateSession { index, settings }
                }
            },
            Command::Configure { index, settings } => {
                if self.is_tracked(index) {
                    Action::ConfigureSession { index, settings }
                } else {
                    Action::ReportUnknownDevice { index }
                }
            },
            Command::Get { index } => {
                if self.is_tracked(index) {
                    Action::EmitFrames { index }
                } else {
                    Action::ReportUnknownDevice { index }
                }
            },
            Command::Ignored => Action::NoAction,
        }
    }
}

} // verus!
