//! Difference records: where two documents disagree, and how.
use crate::path::{JsonPath, Step};
use crate::value::{Json, JsonValue};
use vstd::prelude::*;

verus! {

/// How two documents disagree at a path.
#[derive(Debug, PartialEq, Eq, Hash)]
pub enum DiffKind {
    /// The path is in the right document only.
    LvalueDNE,
    /// The path is in the left document only.
    RvalueDNE,
    /// The two values differ (left, right).
    DiffValue(JsonValue, JsonValue),
    /// The left array has this many more elements.
    LMoreElements(usize),
    /// The right array has this many more elements.
    RMoreElements(usize),
}

/// One difference: a path and what differs there.
#[derive(Debug, PartialEq, Eq, Hash)]
pub struct Diff {
    pub path: JsonPath,
    pub kind: DiffKind,
}

/// The mathematical form of a kind of difference.
pub enum Kind {
    LeftMissing,
    RightMissing,
    Mismatch(Json, Json),
    LeftMore(nat),
    RightMore(nat),
}

/// The mathematical form of a difference record.
pub struct Record {
    pub path: Seq<Step>,
    pub kind: Kind,
}

impl DiffKind {
    pub open spec fn view(&self) -> Kind {
        match self {
            DiffKind::LvalueDNE => Kind::LeftMissing,
            DiffKind::RvalueDNE => Kind::RightMissing,
            DiffKind::DiffValue(l, r) => Kind::Mismatch(l@, r@),
            DiffKind::LMoreElements(n) => Kind::LeftMore(*n as nat),
            DiffKind::RMoreElements(n) => Kind::RightMore(*n as nat),
        }
    }
}

impl Diff {
    pub open spec fn view(&self) -> Record {
        Record { path: self.path@, kind: self.kind@ }
    }
}

/// The records that a sequence of differences holds.
pub open spec fn records(s: Seq<Diff>) -> Seq<Record> {
    s.map_values(|d: Diff| d@)
}

} // verus!
