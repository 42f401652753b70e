//! Levels of the messages that the program logs.
use vstd::prelude::*;

use std::cmp::Ordering;
use vstd::std_specs::cmp::PartialOrdSpecImpl;

verus! {

/// How serious a logged message is; a logger records the messages whose
/// level is at least its own.
#[derive(Clone, Copy, Debug, PartialEq, Eq, Structural)]
pub enum Level {
    Error,
    Warn,
    Info,
    Debug,
}

impl Level {
    /// The number of a level: Error 4, Warn 3, Info 2, Debug 1.
    pub open spec fn spec_rank(self) -> int {
        match self {
            Level::Error => 4,
            Level::Warn => 3,
            Level::Info => 2,
            Level::Debug => 1,
        }
    }

    /// The number of the level.
    pub fn rank(&self) -> (r: i32)
        ensures
            r == self.spec_rank(),
    {
        match self {
            Level::Error => 4,
            Level::Warn => 3,
            Level::Info => 2,
            Level::Debug => 1,
        }
    }

    /// Whether a logger at this level records a message of level `msg`.
    pub fn records(&self, msg: Level) -> (b: bool)
        ensures
            b == (self.spec_rank() <= msg.spec_rank()),
    {
        self.rank() <= msg.rank()
    }
}

/// The levels go up in seriousness from Debug to Info, Warn and Error, and a
/// logger at any level records exactly the messages at least as serious: a
/// logger at Info records warnings and errors but not debug messages.
pub proof fn lemma_levels_by_seriousness(logger: Level, msg: Level)
    ensures
        Level::Debug.spec_rank() < Level::Info.spec_rank(),
        Level::Info.spec_rank() < Level::Warn.spec_rank(),
        Level::Warn.spec_rank() < Level::Error.spec_rank(),
        (logger.spec_rank() <= msg.spec_rank()) <==> (logger == msg || logger == Level::Debug || (
        logger == Level::Info && msg != Level::Debug) || (logger == Level::Warn && msg
            == Level::Error)),
{
}

impl PartialOrd for Level {
    fn partial_cmp(&self, other: &Level) -> (r: Option<Ordering>) {
        let a = self.rank();
        let b = other.rank();
        if a < b {
            Some(Ordering::Less)
        } else if a == b {
            Some(Ordering::Equal)
        } else {
            Some(Ordering::Greater)
        }
    }
}

impl PartialOrdSpecImpl for Level {
    open spec fn obeys_partial_cmp_spec() -> bool {
        true
    }

    open spec fn partial_cmp_spec(&self, other: &Level) -> Option<Ordering> {
        if self.spec_rank() < other.spec_rank() {
            Some(Ordering::Less)
        } else if self.spec_rank() == other.spec_rank() {
            Some(Ordering::Equal)
        } else {
            Some(Ordering::Greater)
        }
    }
}

} // verus!
