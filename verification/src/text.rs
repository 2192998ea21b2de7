//! Character-sequence utilities shared by the source map, the selector
//! parser and the query engine: whitespace handling, trimming,
//! whitespace-token splitting, prefix/suffix/substring tests, and
//! conversions between `&str`, `String` and `Vec<char>`.
//!
//! All spec-level text reasoning in this crate is over `Seq<char>`; the
//! functions here relate the executable types to that model.

use vstd::prelude::*;
use vstd::string::StrSliceExecFns;

verus! {

/// The ASCII whitespace characters; the crate's notion of "whitespace"
/// (for class splitting, trimming and `~=` token lists) is this set.
pub open spec fn is_space_char(c: char) -> bool {
    c == ' ' || c == '\t' || c == '\n' || c == '\r' || c == '\u{000c}'
}

/// Executable mirror of [`is_space_char`].
pub fn space_char(c: char) -> (r: bool)
    ensures
        r == is_space_char(c),
{
    c == ' ' || c == '\t' || c == '\n' || c == '\r' || c == '\u{000c}'
}

/// `s` with leading whitespace removed.
pub open spec fn trim_start_spec(s: Seq<char>) -> Seq<char>
    decreases s.len(),
{
    if s.len() == 0 {
        s
    } else if is_space_char(s[0]) {
        trim_start_spec(s.drop_first())
    } else {
        s
    }
}

/// `s` with trailing whitespace removed.
pub open spec fn trim_end_spec(s: Seq<char>) -> Seq<char>
    decreases s.len(),
{
    if s.len() == 0 {
        s
    } else if is_space_char(s[s.len() - 1]) {
        trim_end_spec(s.drop_last())
    } else {
        s
    }
}

/// `s` with both leading and trailing whitespace removed.
pub open spec fn trim_spec(s: Seq<char>) -> Seq<char> {
    trim_end_spec(trim_start_spec(s))
}

/// Length of the maximal non-whitespace run at the start of `s`.
pub open spec fn token_end(s: Seq<char>) -> nat
    decreases s.len(),
{
    if s.len() == 0 {
        0
    } else if is_space_char(s[0]) {
        0
    } else {
        1 + token_end(s.drop_first())
    }
}

proof fn lemma_token_end_le(s: Seq<char>)
    ensures
        token_end(s) <= s.len(),
    decreases s.len(),
{
    if s.len() > 0 && !is_space_char(s[0]) {
        lemma_token_end_le(s.drop_first());
    }
}

/// The sequence of maximal non-whitespace runs of `s`, in order.
pub open spec fn ws_tokens(s: Seq<char>) -> Seq<Seq<char>>
    decreases s.len(),
    via ws_tokens_decreases
{
    if s.len() == 0 {
        Seq::empty()
    } else if is_space_char(s[0]) {
        ws_tokens(s.drop_first())
    } else {
        seq![s.subrange(0, token_end(s) as int)] + ws_tokens(
            s.subrange(token_end(s) as int, s.len() as int),
        )
    }
}

#[via_fn]
proof fn ws_tokens_decreases(s: Seq<char>) {
    if s.len() > 0 && !is_space_char(s[0]) {
        lemma_token_end_le(s);
    }
}

/// `p` is a prefix of `s`.
pub open spec fn is_prefix_of(p: Seq<char>, s: Seq<char>) -> bool {
    p.len() <= s.len() && p == s.subrange(0, p.len() as int)
}

/// `p` is a suffix of `s`.
pub open spec fn is_suffix_of(p: Seq<char>, s: Seq<char>) -> bool {
    p.len() <= s.len() && p == s.subrange(s.len() - p.len(), s.len() as int)
}

/// `needle` occurs in `hay` starting at position `i`.
pub open spec fn matches_at(hay: Seq<char>, needle: Seq<char>, i: int) -> bool {
    0 <= i && i + needle.len() <= hay.len() && hay.subrange(i, i + needle.len()) == needle
}

/// `needle` occurs somewhere in `hay`.
pub open spec fn contains_seq(hay: Seq<char>, needle: Seq<char>) -> bool {
    exists|i: int| matches_at(hay, needle, i)
}

/// Position of the first occurrence of `needle` in `hay` at or after `i`.
pub open spec fn find_first_from(hay: Seq<char>, needle: Seq<char>, i: int) -> Option<int>
    decreases hay.len() - i,
    via find_first_from_decreases
{
    if i < 0 || i + needle.len() > hay.len() {
        None
    } else if hay.subrange(i, i + needle.len()) == needle {
        Some(i)
    } else {
        find_first_from(hay, needle, i + 1)
    }
}

#[via_fn]
proof fn find_first_from_decreases(hay: Seq<char>, needle: Seq<char>, i: int) {
    if !(i < 0 || i + needle.len() > hay.len()) && needle.len() == 0 {
        assert(hay.subrange(i, i + needle.len()) =~= needle);
    }
}

/// Position of the first occurrence of `needle` in `hay`, if any.
pub open spec fn find_first(hay: Seq<char>, needle: Seq<char>) -> Option<int> {
    find_first_from(hay, needle, 0)
}

proof fn lemma_find_first_from_props(hay: Seq<char>, needle: Seq<char>, i: int)
    requires
        0 <= i,
    ensures
        match find_first_from(hay, needle, i) {
            Some(o) => matches_at(hay, needle, o) && i <= o && forall|j: int|
                i <= j < o ==> !matches_at(hay, needle, j),
            None => forall|j: int| i <= j ==> !matches_at(hay, needle, j),
        },
    decreases hay.len() - i,
{
    if i + needle.len() > hay.len() {
        assert forall|j: int| i <= j implies !matches_at(hay, needle, j) by {}
    } else if hay.subrange(i, i + needle.len()) == needle {
    } else {
        if needle.len() == 0 {
            assert(hay.subrange(i, i + needle.len()) =~= needle);
        }
        lemma_find_first_from_props(hay, needle, i + 1);
        assert(!matches_at(hay, needle, i));
    }
}

/// The first occurrence returned by [`find_first`] really is the first.
pub proof fn lemma_find_first_props(hay: Seq<char>, needle: Seq<char>)
    ensures
        match find_first(hay, needle) {
            Some(o) => matches_at(hay, needle, o) && forall|j: int|
                0 <= j < o ==> !matches_at(hay, needle, j),
            None => !contains_seq(hay, needle),
        },
{
    lemma_find_first_from_props(hay, needle, 0);
    if find_first(hay, needle) is None {
        assert forall|j: int| !matches_at(hay, needle, j) implies true by {}
        if contains_seq(hay, needle) {
            let j = choose|j: int| matches_at(hay, needle, j);
            assert(0 <= j);
            assert(false);
        }
    }
}

/// Appends one character to a `String`.
///
/// Relies on `String::push`: appends the given character to the end of
/// the string.
#[verifier::external_body]
pub fn push_char(s: &mut String, c: char)
    ensures
        final(s)@ == old(s)@.push(c),
{
    s.push(c);
}

/// The characters of `s`, as a vector.
pub fn chars_of(s: &str) -> (r: Vec<char>)
    ensures
        r@ == s@,
{
    let n = s.unicode_len();
    let mut r: Vec<char> = Vec::new();
    let mut i: usize = 0;
    while i < n
        invariant
            i <= n,
            n == s@.len(),
            r@ == s@.subrange(0, i as int),
        decreases n - i,
    {
        let c = s.get_char(i);
        r.push(c);
        proof {
            assert(r@ =~= s@.subrange(0, i + 1 as int));
        }
        i += 1;
    }
    proof {
        assert(r@ =~= s@);
    }
    r
}

/// A `String` holding exactly the characters of `v`.
pub fn chars_to_string(v: &Vec<char>) -> (r: String)
    ensures
        r@ == v@,
{
    let mut r = String::new();
    let mut i: usize = 0;
    while i < v.len()
        invariant
            i <= v.len(),
            r@ == v@.subrange(0, i as int),
        decreases v.len() - i,
    {
        push_char(&mut r, v[i]);
        proof {
            assert(r@ =~= v@.subrange(0, i + 1 as int));
        }
        i += 1;
    }
    proof {
        assert(r@ =~= v@);
    }
    r
}

/// A copy of `v` with an equal view.
pub fn clone_chars(v: &Vec<char>) -> (r: Vec<char>)
    ensures
        r@ == v@,
{
    let mut r: Vec<char> = Vec::new();
    let mut i: usize = 0;
    while i < v.len()
        invariant
            i <= v.len(),
            r@ == v@.subrange(0, i as int),
        decreases v.len() - i,
    {
        r.push(v[i]);
        proof {
            assert(r@ =~= v@.subrange(0, i + 1 as int));
        }
        i += 1;
    }
    proof {
        assert(r@ =~= v@);
    }
    r
}

/// The characters of `v` from `a` (inclusive) to `b` (exclusive).
pub fn sub_chars(v: &Vec<char>, a: usize, b: usize) -> (r: Vec<char>)
    requires
        a <= b <= v@.len(),
    ensures
        r@ == v@.subrange(a as int, b as int),
{
    let mut r: Vec<char> = Vec::new();
    let mut i: usize = a;
    while i < b
        invariant
            a <= i <= b <= v@.len(),
            r@ == v@.subrange(a as int, i as int),
        decreases b - i,
    {
        r.push(v[i]);
        proof {
            assert(r@ =~= v@.subrange(a as int, i + 1 as int));
        }
        i += 1;
    }
    r
}

/// The two vectors hold the same characters.
pub fn eq_chars(a: &Vec<char>, b: &Vec<char>) -> (r: bool)
    ensures
        r == (a@ == b@),
{
    if a.len() != b.len() {
        proof {
            assert(a@ != b@);
        }
        return false;
    }
    let mut i: usize = 0;
    while i < a.len()
        invariant
            i <= a.len(),
            a.len() == b.len(),
            forall|j: int| 0 <= j < i ==> a@[j] == b@[j],
        decreases a.len() - i,
    {
        if a[i] != b[i] {
            return false;
        }
        i += 1;
    }
    proof {
        assert(a@ =~= b@);
    }
    true
}

proof fn lemma_trim_start_at(s: Seq<char>, k: int)
    requires
        0 <= k <= s.len(),
        forall|i: int| 0 <= i < k ==> is_space_char(s[i]),
        k == s.len() || !is_space_char(s[k]),
    ensures
        trim_start_spec(s) == s.subrange(k, s.len() as int),
    decreases k,
{
    if k == 0 {
        if s.len() == 0 || !is_space_char(s[0]) {
            assert(trim_start_spec(s) == s);
            assert(s =~= s.subrange(0, s.len() as int));
        }
    } else {
        assert(is_space_char(s[0]));
        let t = s.drop_first();
        assert forall|i: int| 0 <= i < k - 1 implies is_space_char(t[i]) by {
            assert(t[i] == s[i + 1]);
        }
        if k - 1 < t.len() {
            assert(t[k - 1] == s[k]);
        }
        lemma_trim_start_at(t, k - 1);
        assert(t.subrange(k - 1, t.len() as int) =~= s.subrange(k, s.len() as int));
    }
}

proof fn lemma_trim_end_at(s: Seq<char>, k: int)
    requires
        0 <= k <= s.len(),
        forall|i: int| k <= i < s.len() ==> is_space_char(s[i]),
        k == 0 || !is_space_char(s[k - 1]),
    ensures
        trim_end_spec(s) == s.subrange(0, k),
    decreases s.len(),
{
    if k == s.len() {
        if s.len() == 0 || !is_space_char(s[s.len() - 1]) {
            assert(trim_end_spec(s) == s);
            assert(s =~= s.subrange(0, s.len() as int));
        }
    } else {
        assert(is_space_char(s[s.len() - 1]));
        let t = s.drop_last();
        assert forall|i: int| k <= i < t.len() implies is_space_char(t[i]) by {
            assert(t[i] == s[i]);
        }
        if k > 0 {
            assert(t[k - 1] == s[k - 1]);
        }
        lemma_trim_end_at(t, k);
        assert(t.subrange(0, k) =~= s.subrange(0, k));
    }
}

/// The characters of `v` with leading and trailing whitespace removed.
pub fn trim_chars(v: &Vec<char>) -> (r: Vec<char>)
    ensures
        r@ == trim_spec(v@),
{
    let n = v.len();
    let mut start: usize = 0;
    while start < n && space_char(v[start])
        invariant
            start <= n,
            n == v.len(),
            forall|i: int| 0 <= i < start ==> is_space_char(v@[i]),
        decreases n - start,
    {
        start += 1;
    }
    proof {
        lemma_trim_start_at(v@, start as int);
    }
    let mut end: usize = n;
    while end > start && space_char(v[end - 1])
        invariant
            start <= end <= n,
            n == v.len(),
            forall|i: int| end <= i < n ==> is_space_char(v@[i]),
        decreases end,
    {
        end -= 1;
    }
    let ghost t = v@.subrange(start as int, n as int);
    proof {
        assert forall|i: int| (end - start) <= i < t.len() implies is_space_char(t[i]) by {
            assert(t[i] == v@[i + start]);
        }
        if end > start {
            assert(t[end - start - 1] == v@[end - 1]);
        }
        lemma_trim_end_at(t, end - start);
    }
    let mut r: Vec<char> = Vec::new();
    let mut i: usize = start;
    while i < end
        invariant
            start <= i <= end <= n,
            n == v.len(),
            r@ == v@.subrange(start as int, i as int),
        decreases end - i,
    {
        r.push(v[i]);
        proof {
            assert(r@ =~= v@.subrange(start as int, i + 1 as int));
        }
        i += 1;
    }
    proof {
        assert(t.subrange(0, end - start) =~= v@.subrange(start as int, end as int));
        assert(r@ =~= trim_spec(v@));
    }
    r
}

/// `p` is a prefix of `s`, tested executable.
pub fn prefix_of(p: &Vec<char>, s: &Vec<char>) -> (r: bool)
    ensures
        r == is_prefix_of(p@, s@),
{
    if p.len() > s.len() {
        return false;
    }
    let mut i: usize = 0;
    while i < p.len()
        invariant
            i <= p.len(),
            p.len() <= s.len(),
            forall|j: int| 0 <= j < i ==> p@[j] == s@[j],
        decreases p.len() - i,
    {
        if p[i] != s[i] {
            proof {
                assert(s@.subrange(0, p@.len() as int)[i as int] == s@[i as int]);
            }
            return false;
        }
        i += 1;
    }
    proof {
        assert(p@ =~= s@.subrange(0, p@.len() as int));
    }
    true
}

/// `p` is a suffix of `s`, tested executable.
pub fn suffix_of(p: &Vec<char>, s: &Vec<char>) -> (r: bool)
    ensures
        r == is_suffix_of(p@, s@),
{
    if p.len() > s.len() {
        return false;
    }
    let off = s.len() - p.len();
    let mut i: usize = 0;
    while i < p.len()
        invariant
            i <= p.len(),
            p.len() <= s.len(),
            off == s.len() - p.len(),
            forall|j: int| 0 <= j < i ==> p@[j] == s@[off + j],
        decreases p.len() - i,
    {
        if p[i] != s[off + i] {
            proof {
                assert(s@.subrange(s@.len() - p@.len(), s@.len() as int)[i as int] == s@[
                    off + i as int
                ]);
            }
            return false;
        }
        i += 1;
    }
    proof {
        assert(p@ =~= s@.subrange(s@.len() - p@.len(), s@.len() as int));
    }
    true
}

/// Position of the first occurrence of `needle` in `hay`, if any.
pub fn find_sub(hay: &Vec<char>, needle: &Vec<char>) -> (r: Option<usize>)
    ensures
        match r {
            Some(o) => find_first(hay@, needle@) == Some(o as int),
            None => find_first(hay@, needle@) is None,
        },
{
    if needle.len() > hay.len() {
        return None;
    }
    let last = hay.len() - needle.len();
    let mut o: usize = 0;
    loop
        invariant
            o <= last + 1,
            last == hay.len() - needle.len(),
            needle.len() <= hay.len(),
            find_first_from(hay@, needle@, 0) == find_first_from(hay@, needle@, o as int),
        decreases last + 1 - o,
    {
        if o > last {
            return None;
        }
        let mut j: usize = 0;
        let mut eq = true;
        while j < needle.len()
            invariant
                j <= needle.len(),
                o <= last,
                last == hay.len() - needle.len(),
                needle.len() <= hay.len(),
                eq == (forall|k: int| 0 <= k < j ==> hay@[o + k] == needle@[k]),
            decreases needle.len() - j,
        {
            if hay[o + j] != needle[j] {
                eq = false;
                proof {
                    assert(hay@[o + j as int] != needle@[j as int]);
                }
                j = needle.len();
            } else {
                proof {
                    assert(hay@[o + j as int] == needle@[j as int]);
                }
                j += 1;
            }
        }
        if eq {
            proof {
                assert(hay@.subrange(o as int, o + needle@.len()) =~= needle@);
            }
            return Some(o);
        } else {
            proof {
                let k = choose|k: int| 0 <= k < needle@.len() && hay@[o + k] != needle@[k];
                assert(hay@.subrange(o as int, o + needle@.len())[k] == hay@[o + k]);
                assert(hay@.subrange(o as int, o + needle@.len()) != needle@);
            }
            o += 1;
        }
    }
}

/// The vector holds exactly the characters of `lit`.
pub fn eq_str(v: &Vec<char>, lit: &str) -> (r: bool)
    ensures
        r == (v@ == lit@),
{
    let l = chars_of(lit);
    eq_chars(v, &l)
}

/// The vector holds the character `c` somewhere.
pub fn contains_char(v: &Vec<char>, c: char) -> (r: bool)
    ensures
        r == exists|i: int| 0 <= i < v@.len() && v@[i] == c,
{
    let mut i: usize = 0;
    while i < v.len()
        invariant
            i <= v@.len(),
            forall|j: int| 0 <= j < i ==> v@[j] != c,
        decreases v@.len() - i,
    {
        if v[i] == c {
            return true;
        }
        i += 1;
    }
    false
}

proof fn lemma_token_end_at(s: Seq<char>, k: int)
    requires
        0 <= k <= s.len(),
        forall|i: int| 0 <= i < k ==> !is_space_char(s[i]),
        k == s.len() || is_space_char(s[k]),
    ensures
        token_end(s) == k,
    decreases k,
{
    if k > 0 {
        let t = s.drop_first();
        assert forall|i: int| 0 <= i < k - 1 implies !is_space_char(t[i]) by {
            assert(t[i] == s[i + 1]);
        }
        if k - 1 < t.len() {
            assert(t[k - 1] == s[k]);
        }
        lemma_token_end_at(t, k - 1);
    }
}

/// The whitespace-separated tokens of `v`, in order.
pub fn split_ws(v: &Vec<char>) -> (r: Vec<Vec<char>>)
    ensures
        r@.map_values(|t: Vec<char>| t@) == ws_tokens(v@),
{
    let n = v.len();
    let mut r: Vec<Vec<char>> = Vec::new();
    let mut i: usize = 0;
    proof {
        assert(v@.subrange(0, n as int) =~= v@);
        assert(r@.map_values(|t: Vec<char>| t@) + ws_tokens(v@) =~= ws_tokens(v@));
    }
    while i < n
        invariant
            i <= n,
            n == v@.len(),
            ws_tokens(v@) == r@.map_values(|t: Vec<char>| t@) + ws_tokens(
                v@.subrange(i as int, n as int),
            ),
        decreases n - i,
    {
        let ghost rem = v@.subrange(i as int, n as int);
        proof {
            assert(rem[0] == v@[i as int]);
            assert(rem.drop_first() =~= v@.subrange(i + 1 as int, n as int));
        }
        if space_char(v[i]) {
            i += 1;
        } else {
            let mut j = i + 1;
            while j < n && !space_char(v[j])
                invariant
                    i < j <= n,
                    n == v@.len(),
                    forall|m: int| i <= m < j ==> !is_space_char(v@[m]),
                decreases n - j,
            {
                j += 1;
            }
            proof {
                assert forall|m: int| 0 <= m < j - i implies !is_space_char(rem[m]) by {
                    assert(rem[m] == v@[i + m]);
                }
                if j < n {
                    assert(rem[j - i] == v@[j as int]);
                }
                lemma_token_end_at(rem, j - i);
                assert(rem.subrange(0, j - i) =~= v@.subrange(i as int, j as int));
                assert(rem.subrange(j - i, rem.len() as int) =~= v@.subrange(
                    j as int,
                    n as int,
                ));
            }
            let ghost before = r@.map_values(|t: Vec<char>| t@);
            r.push(sub_chars(v, i, j));
            proof {
                assert(r@.map_values(|t: Vec<char>| t@) =~= before.push(
                    v@.subrange(i as int, j as int),
                ));
                assert(before.push(v@.subrange(i as int, j as int)) =~= before + seq![
                    v@.subrange(i as int, j as int),
                ]);
            }
            i = j;
        }
    }
    proof {
        assert(v@.subrange(n as int, n as int) =~= Seq::<char>::empty());
        assert(r@.map_values(|t: Vec<char>| t@) + Seq::<Seq<char>>::empty() =~= r@.map_values(
            |t: Vec<char>| t@,
        ));
    }
    r
}

/// Some whitespace-separated token of `v` equals `x`.
pub fn token_in(v: &Vec<char>, x: &Vec<char>) -> (r: bool)
    ensures
        r == ws_tokens(v@).contains(x@),
{
    let toks = split_ws(v);
    let mut k: usize = 0;
    while k < toks.len()
        invariant
            k <= toks@.len(),
            toks@.map_values(|t: Vec<char>| t@) == ws_tokens(v@),
            forall|m: int| 0 <= m < k ==> (#[trigger] toks@[m])@ != x@,
        decreases toks@.len() - k,
    {
        if eq_chars(&toks[k], x) {
            proof {
                assert(ws_tokens(v@)[k as int] == x@);
            }
            return true;
        }
        k += 1;
    }
    proof {
        if ws_tokens(v@).contains(x@) {
            let m = choose|m: int| 0 <= m < ws_tokens(v@).len() && ws_tokens(v@)[m] == x@;
            assert(toks@[m]@ == ws_tokens(v@)[m]);
            assert(false);
        }
    }
    false
}

} // verus!
