//! Segmentation modes: plain, or decomposing long words with penalties.
use vstd::prelude::*;

use crate::error::{error_of, LinderaError, LinderaErrorKind};
use crate::text::str_eq;
use crate::viterbi::Edge;
use crate::LinderaResult;

verus! {

/// Penalties that make long words costlier, so that they are decomposed.
#[derive(Debug, Clone, Copy, PartialEq, Eq, Structural)]
pub struct Penalty {
    /// Kanji-only words longer than this many characters are penalized.
    pub kanji_penalty_length_threshold: usize,
    /// The penalty per kanji character beyond the threshold.
    pub kanji_penalty_length_penalty: i32,
    /// Other words longer than this many characters are penalized.
    pub other_penalty_length_threshold: usize,
    /// The penalty per character beyond the threshold.
    pub other_penalty_length_penalty: i32,
}

impl Default for Penalty {
    /// Kanji beyond 2 characters cost 3000 each, others beyond 7 cost 1700
    /// each.
    fn default() -> (r: Self)
        ensures
            r == (Penalty {
                kanji_penalty_length_threshold: 2,
                kanji_penalty_length_penalty: 3000,
                other_penalty_length_threshold: 7,
                other_penalty_length_penalty: 1700,
            }),
    {
        Penalty {
            kanji_penalty_length_threshold: 2,
            kanji_penalty_length_penalty: 3000,
            other_penalty_length_threshold: 7,
            other_penalty_length_penalty: 1700,
        }
    }
}

/// The penalty of an edge: none up to the kanji threshold; beyond it, per
/// extra character the kanji penalty for a kanji-only edge, otherwise the
/// other penalty per character beyond the other threshold.
pub open spec fn penalty_spec(p: Penalty, num_chars: int, kanji_only: bool) -> int {
    if num_chars <= p.kanji_penalty_length_threshold {
        0
    } else if kanji_only {
        ((num_chars - p.kanji_penalty_length_threshold) as i32) * p.kanji_penalty_length_penalty
    } else if num_chars > p.other_penalty_length_threshold {
        ((num_chars - p.other_penalty_length_threshold) as i32) * p.other_penalty_length_penalty
    } else {
        0
    }
}

/// The penalty of a long word: a kanji-only word longer than the kanji
/// threshold costs the kanji penalty per character beyond that threshold,
/// whatever the other threshold and penalty are; any other word longer than
/// both thresholds costs the other penalty per character beyond the other
/// threshold; every other word costs nothing. (The counts of extra
/// characters are taken to fit `i32`.)
pub proof fn lemma_penalty_by_length(p: Penalty, num_chars: int, kanji_only: bool)
    requires
        0 <= num_chars,
        num_chars - p.kanji_penalty_length_threshold <= i32::MAX,
        num_chars - p.other_penalty_length_threshold <= i32::MAX,
    ensures
        num_chars <= p.kanji_penalty_length_threshold ==> penalty_spec(p, num_chars, kanji_only) == 0,
        kanji_only && num_chars > p.kanji_penalty_length_threshold ==> penalty_spec(p, num_chars, kanji_only) == (
        num_chars - p.kanji_penalty_length_threshold) * p.kanji_penalty_length_penalty,
        !kanji_only && num_chars > p.kanji_penalty_length_threshold && num_chars > p.other_penalty_length_threshold
            ==> penalty_spec(p, num_chars, kanji_only) == (num_chars - p.other_penalty_length_threshold)
            * p.other_penalty_length_penalty,
        !kanji_only && num_chars <= p.other_penalty_length_threshold ==> penalty_spec(p, num_chars, kanji_only) == 0,
{
}

/// The penalty of a kanji-only word does not depend on the other threshold
/// or penalty, and that of any other word not on the kanji penalty.
pub proof fn lemma_penalty_parts_apart(p: Penalty, q: Penalty, num_chars: int)
    ensures
        p.kanji_penalty_length_threshold == q.kanji_penalty_length_threshold && p.kanji_penalty_length_penalty
            == q.kanji_penalty_length_penalty ==> penalty_spec(p, num_chars, true) == penalty_spec(q, num_chars, true),
        p.kanji_penalty_length_threshold == q.kanji_penalty_length_threshold && p.other_penalty_length_threshold
            == q.other_penalty_length_threshold && p.other_penalty_length_penalty == q.other_penalty_length_penalty
            ==> penalty_spec(p, num_chars, false) == penalty_spec(q, num_chars, false),
{
}

impl Penalty {
    /// The penalty of an edge.
    pub fn penalty(&self, edge: &Edge) -> (r: i32)
        requires
            i32::MIN <= penalty_spec(*self, edge.char_count as int, edge.kanji_only) <= i32::MAX,
        ensures
            r == penalty_spec(*self, edge.char_count as int, edge.kanji_only),
            edge.kanji_only && edge.char_count > self.kanji_penalty_length_threshold && edge.char_count
                - self.kanji_penalty_length_threshold <= i32::MAX ==> r == (edge.char_count
                - self.kanji_penalty_length_threshold) * self.kanji_penalty_length_penalty,
            !edge.kanji_only && edge.char_count > self.kanji_penalty_length_threshold && edge.char_count
                > self.other_penalty_length_threshold && edge.char_count - self.other_penalty_length_threshold
                <= i32::MAX ==> r == (edge.char_count - self.other_penalty_length_threshold)
                * self.other_penalty_length_penalty,
            edge.char_count <= self.kanji_penalty_length_threshold || (!edge.kanji_only && edge.char_count
                <= self.other_penalty_length_threshold) ==> r == 0,
    {
        let num_chars = edge.num_chars();
        if num_chars <= self.kanji_penalty_length_threshold {
            return 0;
        }
        if edge.kanji_only {
            ((num_chars - self.kanji_penalty_length_threshold) as i32)
                * self.kanji_penalty_length_penalty
        } else if num_chars > self.other_penalty_length_threshold {
            ((num_chars - self.other_penalty_length_threshold) as i32)
                * self.other_penalty_length_penalty
        } else {
            0
        }
    }
}

/// A segmentation mode.
#[derive(Debug, Clone, Copy, PartialEq, Eq, Structural)]
pub enum Mode {
    /// Plain segmentation.
    Normal,
    /// Segmentation that penalizes long words.
    Decompose(Penalty),
}

/// The name of a mode.
pub open spec fn mode_name(m: Mode) -> Seq<char> {
    match m {
        Mode::Normal => "normal"@,
        Mode::Decompose(_) => "decompose"@,
    }
}

impl Mode {
    /// Whether the mode decomposes long words.
    pub fn is_search(&self) -> (r: bool)
        ensures
            r == (*self is Decompose),
    {
        match self {
            Mode::Normal => false,
            Mode::Decompose(_) => true,
        }
    }

    /// The extra cost the mode puts on an edge.
    pub fn penalty_cost(&self, edge: &Edge) -> (r: i32)
        requires
            *self matches Mode::Decompose(p) ==> i32::MIN <= penalty_spec(
                p,
                edge.char_count as int,
                edge.kanji_only,
            ) <= i32::MAX,
        ensures
            r == match *self {
                Mode::Normal => 0,
                Mode::Decompose(p) => penalty_spec(p, edge.char_count as int, edge.kanji_only),
            },
    {
        match self {
            Mode::Normal => 0i32,
            Mode::Decompose(penalty) => penalty.penalty(edge),
        }
    }

    /// The name of the mode.
    pub fn as_str(&self) -> (r: &'static str)
        ensures
            r@ == mode_name(*self),
    {
        match self {
            Mode::Normal => "normal",
            Mode::Decompose(_) => "decompose",
        }
    }

    /// The mode called `mode`: `normal`, or `decompose` with the default
    /// penalties; any other name is a mode error.
    pub fn from_name(mode: &str) -> (r: LinderaResult<Mode>)
        ensures
            match r {
                Ok(m) => mode_name(m) == mode@ && (m matches Mode::Decompose(p) ==> p == Penalty {
                    kanji_penalty_length_threshold: 2,
                    kanji_penalty_length_penalty: 3000,
                    other_penalty_length_threshold: 7,
                    other_penalty_length_penalty: 1700,
                }),
                Err(e) => e.kind == LinderaErrorKind::Mode && mode@ != "normal"@ && mode@
                    != "decompose"@,
            },
    {
        if str_eq(mode, "normal") {
            Ok(Mode::Normal)
        } else if str_eq(mode, "decompose") {
            Ok(Mode::Decompose(Penalty::default()))
        } else {
            Err(error_of(LinderaErrorKind::Mode, "Invalid mode"))
        }
    }
}

impl std::str::FromStr for Mode {
    type Err = LinderaError;

    fn from_str(mode: &str) -> (r: Result<Mode, LinderaError>)
        ensures
            match r {
                Ok(m) => mode_name(m) == mode@ && (m matches Mode::Decompose(p) ==> p == Penalty {
                    kanji_penalty_length_threshold: 2,
                    kanji_penalty_length_penalty: 3000,
                    other_penalty_length_threshold: 7,
                    other_penalty_length_penalty: 1700,
                }),
                Err(e) => e.kind == LinderaErrorKind::Mode && mode@ != "normal"@ && mode@
                    != "decompose"@,
            },
    {
        Mode::from_name(mode)
    }
}

} // verus!
