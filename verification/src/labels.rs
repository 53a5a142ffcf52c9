//! The order of labels and of groups of labels, and sorting by it.

use vstd::prelude::*;
use vstd::relations::{sorted_by, total_ordering};
use vstd::seq_lib::{lemma_sorted_unique, to_multiset_len, to_multiset_remove};

verus! {

/// `a` is `b` or comes before it, where sequences are ordered by the first
/// item in which they differ, and a sequence comes before those that go on
/// from it.
pub open spec fn lex_le<T>(a: Seq<T>, b: Seq<T>, le: spec_fn(T, T) -> bool) -> bool
    decreases a.len(),
{
    if a.len() == 0 {
        true
    } else if b.len() == 0 {
        false
    } else if a[0] == b[0] {
        lex_le(a.skip(1), b.skip(1), le)
    } else {
        le(a[0], b[0])
    }
}

/// The order of characters: that of their code points.
pub open spec fn char_le() -> spec_fn(char, char) -> bool {
    |x: char, y: char| x as int <= y as int
}

/// The order of labels: that of `String`, by code points from the left.
pub open spec fn label_le() -> spec_fn(Seq<char>, Seq<char>) -> bool {
    |a: Seq<char>, b: Seq<char>| lex_le(a, b, char_le())
}

/// The order of groups of labels: that of `Vec<String>`, by labels from the
/// left.
pub open spec fn group_le() -> spec_fn(Seq<Seq<char>>, Seq<Seq<char>>) -> bool {
    |a: Seq<Seq<char>>, b: Seq<Seq<char>>| lex_le(a, b, label_le())
}

/// Every sequence comes before or is itself.
pub proof fn lemma_lex_reflexive<T>(a: Seq<T>, le: spec_fn(T, T) -> bool)
    ensures
        lex_le(a, a, le),
    decreases a.len(),
{
    if a.len() > 0 {
        lemma_lex_reflexive(a.skip(1), le);
    }
}

/// Two sequences of which each comes before or is the other are the same.
pub proof fn lemma_lex_antisymmetric<T>(a: Seq<T>, b: Seq<T>, le: spec_fn(T, T) -> bool)
    requires
        total_ordering(le),
        lex_le(a, b, le),
        lex_le(b, a, le),
    ensures
        a == b,
    decreases a.len(),
{
    if !(a.len() == 0) {
        if a[0] == b[0] {
            lemma_lex_antisymmetric(a.skip(1), b.skip(1), le);
            assert(a =~= seq![a[0]] + a.skip(1));
        }
    }
}

/// What comes before a sequence comes before what that sequence comes before.
pub proof fn lemma_lex_transitive<T>(a: Seq<T>, b: Seq<T>, c: Seq<T>, le: spec_fn(T, T) -> bool)
    requires
        total_ordering(le),
        lex_le(a, b, le),
        lex_le(b, c, le),
    ensures
        lex_le(a, c, le),
    decreases a.len(),
{
    if a.len() > 0 {
        if a[0] == b[0] && b[0] == c[0] {
            lemma_lex_transitive(a.skip(1), b.skip(1), c.skip(1), le);
        }
    }
}

/// Of two sequences, one comes before or is the other.
pub proof fn lemma_lex_connected<T>(a: Seq<T>, b: Seq<T>, le: spec_fn(T, T) -> bool)
    requires
        total_ordering(le),
    ensures
        lex_le(a, b, le) || lex_le(b, a, le),
    decreases a.len(),
{
    if a.len() > 0 && b.len() > 0 {
        if a[0] == b[0] {
            lemma_lex_connected(a.skip(1), b.skip(1), le);
        }
    }
}

/// The order of characters is total.
pub proof fn lemma_char_order()
    ensures
        total_ordering(char_le()),
{
    let le = char_le();
    assert forall|x: char| #[trigger] le(x, x) by {}
    assert forall|x: char, y: char, z: char| #[trigger] le(x, y) && #[trigger] le(y, z) implies le(
        x,
        z,
    ) by {}
    assert forall|x: char, y: char| #[trigger] le(x, y) || #[trigger] le(y, x) by {}
}

/// The order of labels is total.
pub proof fn lemma_label_order()
    ensures
        total_ordering(label_le()),
{
    lemma_char_order();
    let le = label_le();
    assert forall|a: Seq<char>| #[trigger] le(a, a) by {
        lemma_lex_reflexive(a, char_le());
    }
    assert forall|a: Seq<char>, b: Seq<char>| #[trigger] le(a, b) && #[trigger] le(b, a) implies a
        == b by {
        lemma_lex_antisymmetric(a, b, char_le());
    }
    assert forall|a: Seq<char>, b: Seq<char>, c: Seq<char>| #[trigger]
        le(a, b) && #[trigger] le(b, c) implies le(a, c) by {
        lemma_lex_transitive(a, b, c, char_le());
    }
    assert forall|a: Seq<char>, b: Seq<char>| #[trigger] le(a, b) || #[trigger] le(b, a) by {
        lemma_lex_connected(a, b, char_le());
    }
}

/// The order of groups of labels is total.
pub proof fn lemma_group_order()
    ensures
        total_ordering(group_le()),
{
    lemma_label_order();
    let le = group_le();
    assert forall|a: Seq<Seq<char>>| #[trigger] le(a, a) by {
        lemma_lex_reflexive(a, label_le());
    }
    assert forall|a: Seq<Seq<char>>, b: Seq<Seq<char>>| #[trigger]
        le(a, b) && #[trigger] le(b, a) implies a == b by {
        lemma_lex_antisymmetric(a, b, label_le());
    }
    assert forall|a: Seq<Seq<char>>, b: Seq<Seq<char>>, c: Seq<Seq<char>>| #[trigger]
        le(a, b) && #[trigger] le(b, c) implies le(a, c) by {
        lemma_lex_transitive(a, b, c, label_le());
    }
    assert forall|a: Seq<Seq<char>>, b: Seq<Seq<char>>| #[trigger] le(a, b) || #[trigger] le(b, a) by {
        lemma_lex_connected(a, b, label_le());
    }
}

/// `<[String]>::sort`: the labels in ascending order, each as often as
/// before. `String` orders by bytes, which for UTF-8 is the order of the code
/// points.
#[verifier::external_body]
pub(crate) fn sort_labels(labels: &mut Vec<String>)
    ensures
        sorted_by(final(labels).deep_view(), label_le()),
        final(labels).deep_view().to_multiset() == old(labels).deep_view().to_multiset(),
{
    labels.sort();
}

/// `<[Vec<String>]>::sort`: the groups in ascending order, each as often as
/// before. `Vec` orders by its items from the left.
#[verifier::external_body]
pub(crate) fn sort_groups(groups: &mut Vec<Vec<String>>)
    ensures
        sorted_by(final(groups).deep_view(), group_le()),
        final(groups).deep_view().to_multiset() == old(groups).deep_view().to_multiset(),
{
    groups.sort();
}

/// Two sequences without repeats that hold the same items hold each as
/// often as the other.
pub proof fn lemma_same_items<A>(a: Seq<A>, b: Seq<A>)
    requires
        a.no_duplicates(),
        b.no_duplicates(),
        a.to_set() == b.to_set(),
    ensures
        a.to_multiset() == b.to_multiset(),
{
    broadcast use vstd::seq_lib::group_to_multiset_ensures;

    a.lemma_multiset_has_no_duplicates();
    b.lemma_multiset_has_no_duplicates();
    assert forall|x: A| a.to_multiset().count(x) == b.to_multiset().count(x) by {
        assert(a.contains(x) <==> a.to_set().contains(x));
    }
}

/// Where two sequences hold each item as often as the other, so do their
/// images under a function.
pub proof fn lemma_map_same_items<A, B>(a: Seq<A>, b: Seq<A>, f: spec_fn(A) -> B)
    requires
        a.to_multiset() == b.to_multiset(),
    ensures
        a.map_values(f).to_multiset() == b.map_values(f).to_multiset(),
    decreases a.len(),
{
    broadcast use vstd::seq_lib::group_to_multiset_ensures;
    broadcast use vstd::multiset::group_multiset_axioms;

    if a.len() == 0 {
        to_multiset_len(a);
        to_multiset_len(b);
    } else {
        let x = a.last();
        let shorter = a.drop_last();
        assert(a =~= shorter.push(x));
        assert(a.to_multiset().count(x) > 0);
        let i = b.index_of(x);
        let without = b.remove(i);
        to_multiset_remove(b, i);
        assert(shorter.to_multiset() =~= a.to_multiset().remove(x));
        lemma_map_same_items(shorter, without, f);
        assert(a.map_values(f) =~= shorter.map_values(f).push(f(x)));
        assert(b.map_values(f).remove(i) =~= without.map_values(f));
        to_multiset_remove(b.map_values(f), i);
    }
}

/// A sorted sequence that holds each item as often as `items` does is
/// `items` sorted.
pub proof fn lemma_is_sorted<A>(sorted: Seq<A>, items: Seq<A>, le: spec_fn(A, A) -> bool)
    requires
        total_ordering(le),
        sorted_by(sorted, le),
        sorted.to_multiset() == items.to_multiset(),
    ensures
        sorted == items.sort_by(le),
{
    items.lemma_sort_by_ensures(le);
    lemma_sorted_unique(sorted, items.sort_by(le), le);
}

} // verus!
