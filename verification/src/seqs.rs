//! Picking items out of a sequence without repeats, one step at a time.

use vstd::prelude::*;

verus! {

/// `x` is one of the first `upto` items of `source`, and `keep` holds of it.
pub open spec fn kept_before(source: Seq<int>, keep: spec_fn(int) -> bool, upto: int, x: int) -> bool {
    exists|k: int| 0 <= k < upto && #[trigger] source[k] == x && keep(x)
}

/// `out` holds, once each, those of the first `upto` items of `source` of
/// which `keep` holds.
pub open spec fn selects(source: Seq<int>, keep: spec_fn(int) -> bool, upto: int, out: Seq<int>) -> bool {
    &&& out.no_duplicates()
    &&& forall|j: int| 0 <= j < out.len() ==> kept_before(source, keep, upto, #[trigger] out[j])
    &&& forall|k: int| 0 <= k < upto && keep(#[trigger] source[k]) ==> out.contains(source[k])
}

/// Nothing is selected of no items.
pub proof fn lemma_selects_none(source: Seq<int>, keep: spec_fn(int) -> bool)
    ensures
        selects(source, keep, 0, Seq::empty()),
{
}

/// An item that is not kept leaves the selection as it is.
pub proof fn lemma_selects_skip(source: Seq<int>, keep: spec_fn(int) -> bool, upto: int, out: Seq<int>)
    requires
        selects(source, keep, upto, out),
        0 <= upto < source.len(),
        !keep(source[upto]),
    ensures
        selects(source, keep, upto + 1, out),
{
}

/// An item that is kept joins the selection.
pub proof fn lemma_selects_push(source: Seq<int>, keep: spec_fn(int) -> bool, upto: int, out: Seq<int>)
    requires
        selects(source, keep, upto, out),
        source.no_duplicates(),
        0 <= upto < source.len(),
        keep(source[upto]),
    ensures
        selects(source, keep, upto + 1, out.push(source[upto])),
{
    let now = out.push(source[upto]);
    assert forall|k: int| 0 <= k < upto + 1 && keep(#[trigger] source[k]) implies now.contains(
        source[k],
    ) by {
        if k < upto {
            let j = out.index_of(source[k]);
            assert(now[j] == source[k]);
        } else {
            assert(now[now.len() - 1] == source[k]);
        }
    }
}

/// A selection from all of `source` holds the kept items of `source`, and
/// is as long as they are many.
pub proof fn lemma_selects_all(source: Seq<int>, keep: spec_fn(int) -> bool, out: Seq<int>)
    requires
        selects(source, keep, source.len() as int, out),
    ensures
        out.to_set() == source.to_set().filter(keep),
        out.len() == source.to_set().filter(keep).len(),
{
    out.unique_seq_to_set();
}

/// The members of `s` from 0 up to `upto`, in increasing order.
pub open spec fn ascending(s: Set<int>, upto: int) -> Seq<int>
    decreases upto,
{
    if upto <= 0 {
        Seq::empty()
    } else {
        let before = ascending(s, upto - 1);
        if s.contains(upto - 1) {
            before.push(upto - 1)
        } else {
            before
        }
    }
}

/// `ascending` holds members of `s` below `upto`, each larger than the one
/// before, and leaves none out.
pub proof fn lemma_ascending(s: Set<int>, upto: int)
    ensures
        forall|j: int|
            0 <= j < ascending(s, upto).len() ==> 0 <= #[trigger] ascending(s, upto)[j] < upto
                && s.contains(ascending(s, upto)[j]),
        forall|i: int, j: int|
            0 <= i < j < ascending(s, upto).len() ==> ascending(s, upto)[i] < ascending(s, upto)[j],
        forall|x: int| 0 <= x < upto && s.contains(x) ==> ascending(s, upto).contains(x),
        ascending(s, upto).no_duplicates(),
    decreases upto,
{
    if upto > 0 {
        lemma_ascending(s, upto - 1);
        let before = ascending(s, upto - 1);
        let now = ascending(s, upto);
        assert forall|x: int| 0 <= x < upto && s.contains(x) implies now.contains(x) by {
            if x < upto - 1 {
                let j = before.index_of(x);
                assert(now[j] == x);
            } else {
                assert(now[now.len() - 1] == x);
            }
        }
    }
}

} // verus!
