//! The source map: built once from the raw document text by splitting it
//! into lines and recording each line's starting offset, it converts a
//! character offset in the document to a 1-based `(line, column)` pair by
//! binary search over the sorted offsets.
//!
//! Lines are the maximal runs between `'\n'` characters; the piece after
//! the last `'\n'` is a line as well, so every text (the empty text
//! included) has at least one line.  Offsets count characters of the
//! document text.

use vstd::prelude::*;
use crate::text::{chars_of, chars_to_string, sub_chars};

verus! {

/// Length of the maximal `'\n'`-free run at the start of `s`.
pub open spec fn nl_end(s: Seq<char>) -> nat
    decreases s.len(),
{
    if s.len() == 0 {
        0
    } else if s[0] == '\n' {
        0
    } else {
        1 + nl_end(s.drop_first())
    }
}

proof fn lemma_nl_end_le(s: Seq<char>)
    ensures
        nl_end(s) <= s.len(),
    decreases s.len(),
{
    if s.len() > 0 && s[0] != '\n' {
        lemma_nl_end_le(s.drop_first());
    }
}

/// The lines of `s`: maximal `'\n'`-free runs, the terminating `'\n'`
/// excluded; the run after the last `'\n'` is the final line.
pub open spec fn lines_spec(s: Seq<char>) -> Seq<Seq<char>>
    decreases s.len(),
    via lines_spec_decreases
{
    let k = nl_end(s) as int;
    if k == s.len() {
        seq![s]
    } else {
        seq![s.subrange(0, k)] + lines_spec(s.subrange(k + 1, s.len() as int))
    }
}

#[via_fn]
proof fn lines_spec_decreases(s: Seq<char>) {
    lemma_nl_end_le(s);
}

/// The starting offsets of the lines of `s`, each shifted by `base`.
pub open spec fn offsets_spec(s: Seq<char>, base: int) -> Seq<int>
    decreases s.len(),
    via offsets_spec_decreases
{
    let k = nl_end(s) as int;
    if k == s.len() {
        seq![base]
    } else {
        seq![base] + offsets_spec(s.subrange(k + 1, s.len() as int), base + k + 1)
    }
}

#[via_fn]
proof fn offsets_spec_decreases(s: Seq<char>, base: int) {
    lemma_nl_end_le(s);
}

/// Index of the line holding offset `off`: the largest `l` with
/// `offs[l] <= off`, given `offs` sorted ascending with `offs[0] <= off`.
pub open spec fn line_index_of(offs: Seq<int>, off: int) -> nat
    decreases offs.len(),
{
    if offs.len() <= 1 {
        0
    } else if off < offs[1] {
        0
    } else {
        1 + line_index_of(offs.drop_first(), off)
    }
}

/// The 1-based `(line, column)` of offset `off` within the line layout
/// `offs` (as produced by [`offsets_spec`]).
pub open spec fn position_from(offs: Seq<int>, off: int) -> (int, int) {
    let l = line_index_of(offs, off) as int;
    (l + 1, off - offs[l] + 1)
}

/// The 1-based `(line, column)` of character offset `off` in text `s`.
pub open spec fn position_spec(s: Seq<char>, off: int) -> (int, int) {
    position_from(offsets_spec(s, 0), off)
}

/// The line starting offsets: at least one, the first at `base`,
/// strictly increasing, in step with the line lengths.
pub proof fn lemma_offsets_props(s: Seq<char>, base: int)
    ensures
        offsets_spec(s, base).len() == lines_spec(s).len() >= 1,
        offsets_spec(s, base)[0] == base,
        forall|i: int, j: int|
            0 <= i < j < offsets_spec(s, base).len() ==> offsets_spec(s, base)[i] < offsets_spec(
                s,
                base,
            )[j],
        forall|i: int|
            0 <= i < offsets_spec(s, base).len() - 1 ==> offsets_spec(s, base)[i + 1]
                == offsets_spec(s, base)[i] + lines_spec(s)[i].len() + 1,
        forall|i: int|
            0 <= i < offsets_spec(s, base).len() ==> base <= offsets_spec(s, base)[i],
    decreases s.len(),
{
    lemma_nl_end_le(s);
    let k = nl_end(s) as int;
    if k < s.len() {
        let rest = s.subrange(k + 1, s.len() as int);
        lemma_offsets_props(rest, base + k + 1);
        let offs = offsets_spec(s, base);
        let roffs = offsets_spec(rest, base + k + 1);
        let ls = lines_spec(s);
        let rls = lines_spec(rest);
        assert(offs == seq![base] + roffs);
        assert(ls == seq![s.subrange(0, k)] + rls);
        assert(offs[0] == base);
        assert forall|i: int, j: int| 0 <= i < j < offs.len() implies offs[i] < offs[j] by {
            if i > 0 {
                assert(offs[i] == roffs[i - 1]);
                assert(offs[j] == roffs[j - 1]);
            } else {
                assert(offs[j] == roffs[j - 1]);
                assert(base + k + 1 <= roffs[j - 1]);
            }
        }
        assert forall|i: int| 0 <= i < offs.len() - 1 implies offs[i + 1] == offs[i] + ls[i].len()
            + 1 by {
            if i == 0 {
                assert(offs[1] == roffs[0]);
                assert(roffs[0] == base + k + 1);
                assert(ls[0] == s.subrange(0, k));
            } else {
                assert(offs[i] == roffs[i - 1]);
                assert(offs[i + 1] == roffs[i]);
                assert(ls[i] == rls[i - 1]);
            }
        }
    }
}

proof fn lemma_line_index_of_props(offs: Seq<int>, off: int)
    requires
        offs.len() >= 1,
        offs[0] <= off,
        forall|i: int, j: int| 0 <= i < j < offs.len() ==> offs[i] < offs[j],
    ensures
        (line_index_of(offs, off) as int) < offs.len(),
        offs[line_index_of(offs, off) as int] <= off,
        line_index_of(offs, off) as int == offs.len() - 1 || off < offs[line_index_of(offs, off)
            as int + 1],
    decreases offs.len(),
{
    if offs.len() > 1 && off >= offs[1] {
        let t = offs.drop_first();
        assert forall|i: int, j: int| 0 <= i < j < t.len() implies t[i] < t[j] by {
            assert(t[i] == offs[i + 1]);
            assert(t[j] == offs[j + 1]);
        }
        lemma_line_index_of_props(t, off);
        let l = line_index_of(t, off) as int;
        assert(t[l] == offs[l + 1]);
        if l < t.len() - 1 {
            assert(t[l + 1] == offs[l + 2]);
        }
    }
}

proof fn lemma_line_index_unique(offs: Seq<int>, off: int, l: int)
    requires
        offs.len() >= 1,
        offs[0] <= off,
        forall|i: int, j: int| 0 <= i < j < offs.len() ==> offs[i] < offs[j],
        0 <= l < offs.len(),
        offs[l] <= off,
        l == offs.len() - 1 || off < offs[l + 1],
    ensures
        l == line_index_of(offs, off) as int,
{
    lemma_line_index_of_props(offs, off);
    let m = line_index_of(offs, off) as int;
    if l < m {
        assert(off < offs[l + 1]);
        if l + 1 < m {
            assert(offs[l + 1] < offs[m]);
        }
        assert(offs[m] <= off);
        assert(false);
    }
    if m < l {
        assert(off < offs[m + 1]);
        if m + 1 < l {
            assert(offs[m + 1] < offs[l]);
        }
        assert(offs[l] <= off);
        assert(false);
    }
}

/// Line layout of one document text: each line's text and its starting
/// character offset, 1-based positions derived by binary search.
pub struct SourceMap {
    pub lines: Vec<String>,
    pub line_offsets: Vec<usize>,
}

impl SourceMap {
    /// The offsets as mathematical integers.
    pub open spec fn offs_view(&self) -> Seq<int> {
        self.line_offsets@.map_values(|x: usize| x as int)
    }

    /// The map describes the text `s`.
    pub open spec fn wf_for(&self, s: Seq<char>) -> bool {
        &&& self.lines@.map_values(|l: String| l@) == lines_spec(s)
        &&& self.offs_view() == offsets_spec(s, 0)
    }

    /// Structural soundness: what [`Self::get_position`] needs of the
    /// offsets, independent of the originating text.
    pub open spec fn wf(&self) -> bool {
        &&& self.line_offsets@.len() >= 1
        &&& self.offs_view()[0] == 0
        &&& forall|i: int, j: int|
            0 <= i < j < self.offs_view().len() ==> self.offs_view()[i] < self.offs_view()[j]
    }

    /// A map that describes some text is structurally sound.
    pub proof fn lemma_wf_for_implies_wf(&self, s: Seq<char>)
        requires
            self.wf_for(s),
        ensures
            self.wf(),
    {
        lemma_offsets_props(s, 0);
    }

    /// Builds the map for `source`: one entry per line.
    pub fn new(source: &str) -> (r: SourceMap)
        ensures
            r.wf_for(source@),
            r.wf(),
    {
        let cs = chars_of(source);
        let ghost s = source@;
        let n = cs.len();
        let mut lines: Vec<String> = Vec::new();
        let mut offs: Vec<usize> = Vec::new();
        let mut start: usize = 0;
        let mut i: usize = 0;
        proof {
            assert(s.subrange(0, n as int) =~= s);
            assert(lines@.map_values(|l: String| l@) + lines_spec(s) =~= lines_spec(s));
            assert(offs@.map_values(|x: usize| x as int) + offsets_spec(s, 0) =~= offsets_spec(
                s,
                0,
            ));
        }
        loop
            invariant_except_break
                lines_spec(s) == lines@.map_values(|l: String| l@) + lines_spec(
                    s.subrange(start as int, n as int),
                ),
                offsets_spec(s, 0) == offs@.map_values(|x: usize| x as int) + offsets_spec(
                    s.subrange(start as int, n as int),
                    start as int,
                ),
            invariant
                start <= i <= n,
                n == s.len(),
                cs@ == s,
                forall|j: int| start <= j < i ==> s[j] != '\n',
                lines@.len() == offs@.len(),
            ensures
                lines@.map_values(|l: String| l@) == lines_spec(s),
                offs@.map_values(|x: usize| x as int) == offsets_spec(s, 0),
            decreases n - i, n - start,
        {
            if i == n || cs[i] == '\n' {
                let ghost rem = s.subrange(start as int, n as int);
                proof {
                    assert forall|j: int| 0 <= j < i - start implies rem[j] != '\n' by {
                        assert(rem[j] == s[start + j]);
                    }
                    lemma_nl_end_at(rem, i - start);
                }
                let ghost lines_before = lines@;
                let ghost offs_before = offs@;
                let line = chars_to_string(&sub_chars(&cs, start, i));
                lines.push(line);
                offs.push(start);
                proof {
                    assert(rem.subrange(0, i - start) =~= s.subrange(start as int, i as int));
                    assert(lines@.map_values(|l: String| l@) =~= lines_before.map_values(
                        |l: String| l@,
                    ).push(s.subrange(start as int, i as int)));
                    assert(offs@.map_values(|x: usize| x as int) =~= offs_before.map_values(
                        |x: usize| x as int,
                    ).push(start as int));
                }
                if i == n {
                    proof {
                        assert(lines_spec(rem) == seq![rem]);
                        assert(offsets_spec(rem, start as int) == seq![start as int]);
                        assert(lines@.map_values(|l: String| l@) =~= lines_spec(s));
                        assert(offs@.map_values(|x: usize| x as int) =~= offsets_spec(s, 0));
                    }
                    break;
                }
                proof {
                    assert(rem.subrange(i - start + 1, rem.len() as int) =~= s.subrange(
                        i + 1 as int,
                        n as int,
                    ));
                }
                start = i + 1;
            }
            i += 1;
        }
        let r = SourceMap { lines, line_offsets: offs };
        proof {
            r.lemma_wf_for_implies_wf(s);
        }
        r
    }

    /// The 1-based `(line, column)` of character offset `offset`,
    /// found by binary search over the line starting offsets.
    pub fn get_position(&self, offset: usize) -> (r: (usize, usize))
        requires
            self.wf(),
            offset < usize::MAX,
        ensures
            (r.0 as int, r.1 as int) == position_from(self.offs_view(), offset as int),
    {
        let n = self.line_offsets.len();
        let mut lo: usize = 0;
        let mut hi: usize = n;
        while hi - lo > 1
            invariant
                self.wf(),
                lo < hi <= n,
                n == self.line_offsets@.len(),
                self.offs_view()[lo as int] <= offset as int,
                hi == n || (offset as int) < self.offs_view()[hi as int],
            decreases hi - lo,
        {
            let mid = lo + (hi - lo) / 2;
            if self.line_offsets[mid] <= offset {
                lo = mid;
            } else {
                hi = mid;
            }
        }
        proof {
            lemma_line_index_unique(self.offs_view(), offset as int, lo as int);
        }
        (lo + 1, offset - self.line_offsets[lo] + 1)
    }
}

proof fn lemma_nl_end_at(s: Seq<char>, k: int)
    requires
        0 <= k <= s.len(),
        forall|i: int| 0 <= i < k ==> s[i] != '\n',
        k == s.len() || s[k] == '\n',
    ensures
        nl_end(s) == k,
    decreases k,
{
    if k == 0 {
    } else {
        let t = s.drop_first();
        assert forall|i: int| 0 <= i < k - 1 implies t[i] != '\n' by {
            assert(t[i] == s[i + 1]);
        }
        if k - 1 < t.len() {
            assert(t[k - 1] == s[k]);
        }
        lemma_nl_end_at(t, k - 1);
    }
}

} // verus!
