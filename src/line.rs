use vstd::prelude::*;

use crate::text::{from_chars, to_chars};

verus! {

/// The marker that opens an alignment line.
pub const ALIGN_MARKER: char = '>';

/// The marker whose leading run gives a heading's level.
pub const HEADER_MARKER: char = '#';

/// The kind of a line: lines are grouped into blocks by equal kinds, and two
/// headings of different levels are of different kinds.
#[derive(PartialEq, Eq, Structural, Clone, Copy, Debug)]
pub enum LineType {
    Normal,
    Header(usize),
    Align,
}

/// One classified line, its markers stripped.
pub enum Line {
    Normal(String),
    Header(String, usize),
    Align(String),
}

/// The number of header markers at the start of `s`.
pub open spec fn leading_hashes(s: Seq<char>) -> nat
    decreases s.len(),
{
    if s.len() > 0 && s[0] == HEADER_MARKER {
        1 + leading_hashes(s.drop_first())
    } else {
        0
    }
}

/// The kind of the raw line `s`.
pub open spec fn line_kind(s: Seq<char>) -> LineType {
    if s.len() > 0 && s[0] == ALIGN_MARKER {
        LineType::Align
    } else if s.len() > 0 && s[0] == HEADER_MARKER {
        LineType::Header(leading_hashes(s) as usize)
    } else {
        LineType::Normal
    }
}

/// The content of the raw line `s` once its markers are removed.
pub open spec fn line_text(s: Seq<char>) -> Seq<char> {
    if s.len() > 0 && s[0] == ALIGN_MARKER {
        s.drop_first()
    } else if s.len() > 0 && s[0] == HEADER_MARKER {
        s.skip(leading_hashes(s) as int)
    } else {
        s
    }
}

/// A run of exactly `k` header markers opens `s`.
pub open spec fn starts_with_hashes(s: Seq<char>, k: int) -> bool {
    &&& 0 <= k <= s.len()
    &&& forall|j: int| 0 <= j < k ==> s[j] == HEADER_MARKER
    &&& (k == s.len() || s[k] != HEADER_MARKER)
}

proof fn lemma_leading_hashes(s: Seq<char>, k: int)
    requires
        starts_with_hashes(s, k),
    ensures
        leading_hashes(s) == k,
    decreases k,
{
    if k > 0 {
        let t = s.drop_first();
        assert(starts_with_hashes(t, k - 1)) by {
            assert forall|j: int| 0 <= j < k - 1 implies t[j] == HEADER_MARKER by {
                assert(s[j + 1] == HEADER_MARKER);
            }
        }
        lemma_leading_hashes(t, k - 1);
    }
}

impl Line {
    /// The kind of this line.
    pub open spec fn kind(&self) -> LineType {
        match self {
            Line::Normal(_) => LineType::Normal,
            Line::Header(_, n) => LineType::Header(*n),
            Line::Align(_) => LineType::Align,
        }
    }

    /// The marker-stripped content of this line.
    pub open spec fn text(&self) -> Seq<char> {
        match self {
            Line::Normal(s) => s@,
            Line::Header(s, _) => s@,
            Line::Align(s) => s@,
        }
    }

    /// Classifies one raw line (without its line terminator) by its leading marker.
    pub fn classify(line: &str) -> (r: Line)
        ensures
            r.kind() == line_kind(line@),
            r.text() == line_text(line@),
            (line@.len() == 0 || (line@[0] != HEADER_MARKER && line@[0] != ALIGN_MARKER))
                ==> r.kind() == LineType::Normal && r.text() == line@,
            forall|k: int|
                k >= 1 && #[trigger] starts_with_hashes(line@, k) ==> r.kind() == LineType::Header(
                    k as usize,
                ) && r.text() == line@.skip(k),
            (line@.len() > 0 && line@[0] == ALIGN_MARKER) ==> r.kind() == LineType::Align
                && r.text() == line@.drop_first(),
    {
        let v = to_chars(line);
        let n = v.len();
        proof {
            assert forall|k: int| k >= 1 && #[trigger] starts_with_hashes(line@, k) implies leading_hashes(
                line@,
            ) == k by {
                lemma_leading_hashes(line@, k);
            }
        }
        if n > 0 && v[0] == ALIGN_MARKER {
            Line::Align(from_chars(&v, 1, n))
        } else if n > 0 && v[0] == HEADER_MARKER {
            let mut i: usize = 0;
            assert(v@.subrange(0, n as int) == v@);
            while i < n && v[i] == HEADER_MARKER
                invariant
                    i <= n == v@.len(),
                    leading_hashes(v@) == i + leading_hashes(v@.subrange(i as int, n as int)),
                decreases n - i,
            {
                assert(v@.subrange(i as int, n as int).drop_first() == v@.subrange(i + 1, n as int));
                i = i + 1;
            }
            assert(v@.subrange(i as int, n as int) == v@.skip(i as int));
            Line::Header(from_chars(&v, i, n), i)
        } else {
            Line::Normal(from_chars(&v, 0, n))
        }
    }

    /// Whether the two lines are of the same kind.
    pub fn type_equals(&self, other: &Line) -> (r: bool)
        ensures
            r == (self.kind() == other.kind()),
    {
        self.get_type() == other.get_type()
    }

    /// The kind of this line.
    pub fn get_type(&self) -> (r: LineType)
        ensures
            r == self.kind(),
    {
        match self {
            Line::Normal(_) => LineType::Normal,
            Line::Header(_, x) => LineType::Header(*x),
            Line::Align(_) => LineType::Align,
        }
    }

    /// The content of this line, consuming it.
    pub fn get_content(self) -> (r: String)
        ensures
            r@ == self.text(),
    {
        match self {
            Line::Normal(s) => s,
            Line::Header(s, _) => s,
            Line::Align(s) => s,
        }
    }
}

} // verus!
