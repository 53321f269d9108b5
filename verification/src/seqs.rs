//! Small general lemmas about sequences: first-match searches, multisets
//! under insertion and removal, prefixes, and the view of a sequence of
//! strings.

use vstd::prelude::*;
use vstd::seq_lib::lemma_multiset_commutative;

verus! {

/// View of a sequence of strings as a sequence of character sequences.
pub open spec fn strs_view(s: Seq<String>) -> Seq<Seq<char>> {
    s.map_values(|x: String| x@)
}

pub proof fn lemma_strs_view_remove(s: Seq<String>, i: int)
    requires
        0 <= i < s.len(),
    ensures
        strs_view(s.remove(i)) =~= strs_view(s).remove(i),
{
    s.remove_ensures(i);
    strs_view(s).remove_ensures(i);
}

pub proof fn lemma_strs_view_insert(s: Seq<String>, i: int, x: String)
    requires
        0 <= i <= s.len(),
    ensures
        strs_view(s.insert(i, x)) =~= strs_view(s).insert(i, x@),
{
    s.insert_ensures(i, x);
    strs_view(s).insert_ensures(i, x@);
}

/// The first index `i` in `[from, len)` satisfying `p`, if any.
pub open spec fn first_index_from(from: int, len: int, p: spec_fn(int) -> bool) -> Option<int>
    decreases len - from,
{
    if from < 0 || from >= len {
        None
    } else if p(from) {
        Some(from)
    } else {
        first_index_from(from + 1, len, p)
    }
}

/// The first index `i` in `[0, len)` satisfying `p`, if any.
pub open spec fn first_index(len: int, p: spec_fn(int) -> bool) -> Option<int> {
    first_index_from(0, len, p)
}

pub proof fn lemma_first_index_from(from: int, len: int, p: spec_fn(int) -> bool)
    requires
        0 <= from,
    ensures
        match first_index_from(from, len, p) {
            Some(i) => from <= i < len && p(i) && forall|k: int| from <= k < i ==> !#[trigger] p(k),
            None => forall|k: int| from <= k < len ==> !#[trigger] p(k),
        },
    decreases len - from,
{
    if from < len && !p(from) {
        lemma_first_index_from(from + 1, len, p);
    }
}

/// What `first_index` returns: the matching index with no match before it,
/// or nothing when no index matches.
pub proof fn lemma_first_index(len: int, p: spec_fn(int) -> bool)
    ensures
        match first_index(len, p) {
            Some(i) => 0 <= i < len && p(i) && forall|k: int| 0 <= k < i ==> !#[trigger] p(k),
            None => forall|k: int| 0 <= k < len ==> !#[trigger] p(k),
        },
{
    lemma_first_index_from(0, len, p);
}

pub proof fn lemma_first_index_from_is(from: int, len: int, p: spec_fn(int) -> bool, i: int)
    requires
        0 <= from <= i < len,
        p(i),
        forall|k: int| from <= k < i ==> !#[trigger] p(k),
    ensures
        first_index_from(from, len, p) == Some(i),
    decreases len - from,
{
    if from < i {
        lemma_first_index_from_is(from + 1, len, p, i);
    }
}

/// `first_index` is pinned by its characterization.
pub proof fn lemma_first_index_is(len: int, p: spec_fn(int) -> bool, i: int)
    requires
        0 <= i < len,
        p(i),
        forall|k: int| 0 <= k < i ==> !#[trigger] p(k),
    ensures
        first_index(len, p) == Some(i),
{
    lemma_first_index_from_is(0, len, p, i);
}

pub proof fn lemma_first_index_from_none(from: int, len: int, p: spec_fn(int) -> bool)
    requires
        0 <= from,
        forall|k: int| from <= k < len ==> !#[trigger] p(k),
    ensures
        first_index_from(from, len, p) is None,
    decreases len - from,
{
    if from < len {
        lemma_first_index_from_none(from + 1, len, p);
    }
}

pub proof fn lemma_first_index_none(len: int, p: spec_fn(int) -> bool)
    requires
        forall|k: int| 0 <= k < len ==> !#[trigger] p(k),
    ensures
        first_index(len, p) is None,
{
    lemma_first_index_from_none(0, len, p);
}

/// Inserting an element anywhere in a sequence inserts it in the multiset.
pub proof fn lemma_multiset_insert<A>(s: Seq<A>, i: int, x: A)
    requires
        0 <= i <= s.len(),
    ensures
        s.insert(i, x).to_multiset() =~= s.to_multiset().insert(x),
{
    broadcast use vstd::seq_lib::group_to_multiset_ensures;
    broadcast use vstd::multiset::group_multiset_axioms;

    let a = s.subrange(0, i);
    let b = s.subrange(i, s.len() as int);
    assert(s.insert(i, x) == a.push(x) + b);
    lemma_multiset_commutative(a.push(x), b);
    lemma_multiset_commutative(a, b);
    assert(s =~= a + b);
    assert(a.push(x).to_multiset() =~= a.to_multiset().insert(x));
}

/// Removing an element and inserting it back elsewhere keeps the multiset.
pub proof fn lemma_multiset_move<A>(s: Seq<A>, from: int, to: int)
    requires
        0 <= from < s.len(),
        0 <= to <= s.len() - 1,
    ensures
        s.remove(from).insert(to, s[from]).to_multiset() =~= s.to_multiset(),
{
    broadcast use vstd::seq_lib::group_to_multiset_ensures;
    broadcast use vstd::multiset::group_multiset_axioms;

    let x = s[from];
    assert(s.remove(from).to_multiset() =~= s.to_multiset().remove(x));
    lemma_multiset_insert(s.remove(from), to, x);
    assert(s.to_multiset().contains(x));
    assert(s.to_multiset().remove(x).insert(x) =~= s.to_multiset());
}

/// Prefix-of is transitive.
pub proof fn lemma_prefix_trans<A>(a: Seq<A>, b: Seq<A>, c: Seq<A>)
    requires
        a.is_prefix_of(b),
        b.is_prefix_of(c),
    ensures
        a.is_prefix_of(c),
{
    assert(a =~= c.subrange(0, a.len() as int)) by {
        assert(forall|i: int| 0 <= i < a.len() ==> a[i] == b[i] && b[i] == c[i]);
    }
}

/// A sequence heads its own extension.
pub proof fn lemma_prefix_push<A>(s: Seq<A>, x: A)
    ensures
        s.is_prefix_of(s.push(x)),
{
    assert(s =~= s.push(x).subrange(0, s.len() as int));
}

} // verus!
