//! Laws of the query engine, stated and proved once and for all: query
//! results are deterministic, caching cannot change what a selector
//! means, every result is a subset of the universal query, and the id
//! index can hold at most one node per id value.

use vstd::prelude::*;
use crate::dom::NodeView;
use crate::parser::{parse_spec, universal_selector, SelectorSyntaxError};
use crate::selector::SelectorView;
use crate::sem::{
    holds_index, id_matches, lemma_id_unique, part_matches, query_post, selector_matches,
    seq_matches_upto, sequence_matches, strictly_inc,
};

verus! {

proof fn lemma_sorted_same_set(a: Seq<usize>, b: Seq<usize>)
    requires
        strictly_inc(a),
        strictly_inc(b),
        forall|x: int|
            #![trigger holds_index(a, x)]
            #![trigger holds_index(b, x)]
            holds_index(a, x) <==> holds_index(b, x),
    ensures
        a == b,
    decreases a.len(),
{
    if a.len() == 0 {
        if b.len() > 0 {
            crate::sem::lemma_holds_index_witness(b, 0);
            assert(false);
        }
        assert(a =~= b);
    } else if b.len() == 0 {
        crate::sem::lemma_holds_index_witness(a, 0);
        assert(false);
    } else {
        crate::sem::lemma_holds_index_witness(a, 0);
        crate::sem::lemma_holds_index_witness(b, 0);
        let j = choose|j: int| 0 <= j < b.len() && b[j] == a[0] as int;
        let j2 = choose|j2: int| 0 <= j2 < a.len() && a[j2] == b[0] as int;
        assert(b[0] <= b[j]);
        assert(a[0] <= a[j2]);
        assert(a[0] == b[0]);
        let at = a.drop_first();
        let bt = b.drop_first();
        assert forall|x: int|
            #![trigger holds_index(at, x)]
            #![trigger holds_index(bt, x)]
            holds_index(at, x) <==> holds_index(bt, x) by {
            if holds_index(at, x) {
                let m = choose|m: int| 0 <= m < at.len() && at[m] == x;
                assert(a[m + 1] == x);
                crate::sem::lemma_holds_index_witness(a, m + 1);
                assert(a[0] < a[m + 1]);
                let m2 = choose|m2: int| 0 <= m2 < b.len() && b[m2] == x;
                assert(m2 > 0);
                assert(bt[m2 - 1] == x);
                crate::sem::lemma_holds_index_witness(bt, m2 - 1);
            }
            if holds_index(bt, x) {
                let m = choose|m: int| 0 <= m < bt.len() && bt[m] == x;
                assert(b[m + 1] == x);
                crate::sem::lemma_holds_index_witness(b, m + 1);
                assert(b[0] < b[m + 1]);
                let m2 = choose|m2: int| 0 <= m2 < a.len() && a[m2] == x;
                assert(m2 > 0);
                assert(at[m2 - 1] == x);
                crate::sem::lemma_holds_index_witness(at, m2 - 1);
            }
        }
        assert forall|x: int, y: int| 0 <= x < y < at.len() implies at[x] < at[y] by {
            assert(at[x] == a[x + 1]);
            assert(at[y] == a[y + 1]);
        }
        assert forall|x: int, y: int| 0 <= x < y < bt.len() implies bt[x] < bt[y] by {
            assert(bt[x] == b[x + 1]);
            assert(bt[y] == b[y + 1]);
        }
        lemma_sorted_same_set(at, bt);
        assert(a.len() == b.len());
        assert forall|i: int| 0 <= i < a.len() implies a[i] == b[i] by {
            if i > 0 {
                assert(at[i - 1] == a[i]);
                assert(bt[i - 1] == b[i]);
            }
        }
        assert(a =~= b);
    }
}

/// Determinism: two query results for the same selector on the same
/// unmodified document are identical, element for element — the
/// result is a function of the document and the compiled selector.
pub proof fn lemma_query_deterministic(
    doc: Seq<NodeView>,
    sel: SelectorView,
    r1: Seq<usize>,
    r2: Seq<usize>,
)
    requires
        query_post(doc, sel, r1),
        query_post(doc, sel, r2),
    ensures
        r1 == r2,
{
    assert forall|x: int|
        #![trigger holds_index(r1, x)]
        #![trigger holds_index(r2, x)]
        holds_index(r1, x) <==> holds_index(r2, x) by {
        if holds_index(r1, x) {
            let j = choose|j: int| 0 <= j < r1.len() && r1[j] == x;
            assert(0 <= x < doc.len());
            assert(selector_matches(doc, x, sel));
        }
        if holds_index(r2, x) {
            let j = choose|j: int| 0 <= j < r2.len() && r2[j] == x;
            assert(0 <= x < doc.len());
            assert(selector_matches(doc, x, sel));
        }
    }
    lemma_sorted_same_set(r1, r2);
}

/// Cache correctness: the parse is a function of the selector text, so
/// parsing the same raw selector string twice — cached or not — yields
/// structurally equal selectors.
pub proof fn lemma_parse_deterministic(s: Seq<char>, v1: SelectorView, v2: SelectorView)
    requires
        parse_spec(s) == Ok::<SelectorView, SelectorSyntaxError>(v1),
        parse_spec(s) == Ok::<SelectorView, SelectorSyntaxError>(v2),
    ensures
        v1 == v2,
{
}

/// The selector `*` compiles to the universal selector.
pub proof fn lemma_universal_parse()
    ensures
        parse_spec("*"@) == Ok::<SelectorView, SelectorSyntaxError>(universal_selector()),
{
    reveal_strlit("*");
    assert("*"@.len() == 1 && "*"@[0] == '*');
}

/// Every node matches the universal selector.
pub proof fn lemma_universal_matches(doc: Seq<NodeView>, i: int)
    requires
        0 <= i < doc.len(),
    ensures
        selector_matches(doc, i, universal_selector()),
{
    let sv = universal_selector().alternatives[0];
    assert(part_matches(doc, i, sv.parts[0]));
    assert(seq_matches_upto(doc, i, sv, 0));
    assert(sequence_matches(doc, i, sv));
}

/// Subset: for any selector, the query result is a subset of the
/// result of the universal query `*` on the same document.
pub proof fn lemma_query_subset(
    doc: Seq<NodeView>,
    sel: SelectorView,
    r: Seq<usize>,
    runiv: Seq<usize>,
)
    requires
        query_post(doc, sel, r),
        query_post(doc, universal_selector(), runiv),
    ensures
        forall|j: int| 0 <= j < r.len() ==> holds_index(runiv, #[trigger] r[j] as int),
{
    assert forall|j: int| 0 <= j < r.len() implies holds_index(runiv, #[trigger] r[j] as int) by {
        let x = r[j] as int;
        assert(0 <= x < doc.len());
        lemma_universal_matches(doc, x);
    }
}

/// Id tie-break: a selector whose only constraint is an id matches at
/// most one node (the last one registered under that id), so its query
/// result holds at most one index.
pub proof fn lemma_id_query_singleton(
    doc: Seq<NodeView>,
    sel: SelectorView,
    v: Seq<char>,
    r: Seq<usize>,
)
    requires
        query_post(doc, sel, r),
        forall|a: int|
            0 <= a < sel.alternatives.len() ==> (#[trigger] sel.alternatives[a]).parts.len() == 1
                && sel.alternatives[a].parts[0].id == Some(v),
    ensures
        r.len() <= 1,
{
    if r.len() >= 2 {
        let x = r[0] as int;
        let y = r[1] as int;
        crate::sem::lemma_holds_index_witness(r, 0);
        crate::sem::lemma_holds_index_witness(r, 1);
        assert(selector_matches(doc, x, sel));
        assert(selector_matches(doc, y, sel));
        let ax = choose|a: int|
            0 <= a < sel.alternatives.len() && sequence_matches(doc, x, #[trigger] sel.alternatives[a]);
        assert(seq_matches_upto(doc, x, sel.alternatives[ax], 0));
        assert(id_matches(doc, x, v));
        let ay = choose|a: int|
            0 <= a < sel.alternatives.len() && sequence_matches(doc, y, #[trigger] sel.alternatives[a]);
        assert(seq_matches_upto(doc, y, sel.alternatives[ay], 0));
        assert(id_matches(doc, y, v));
        lemma_id_unique(doc, v, x, y);
        assert(r[0] < r[1]);
        assert(false);
    }
}

} // verus!
