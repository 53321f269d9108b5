//! Lexicographic order on names (character sequences), with the proofs that
//! it is a total order, and an executable comparison on string slices.

use vstd::prelude::*;
use vstd::relations::{antisymmetric, reflexive, sorted_by, strongly_connected, total_ordering,
    transitive};

verus! {

/// `a` is lexicographically at most `b`, comparing characters by code point.
pub open spec fn lex_leq(a: Seq<char>, b: Seq<char>) -> bool
    decreases a.len(),
{
    if a.len() == 0 {
        true
    } else if b.len() == 0 {
        false
    } else if a[0] == b[0] {
        lex_leq(a.drop_first(), b.drop_first())
    } else {
        (a[0] as int) < (b[0] as int)
    }
}

/// The order as a closure, in the shape `Seq::sort_by` takes.
pub open spec fn lex_leq_fn() -> spec_fn(Seq<char>, Seq<char>) -> bool {
    |a: Seq<char>, b: Seq<char>| lex_leq(a, b)
}

pub proof fn lemma_lex_leq_reflexive(a: Seq<char>)
    ensures
        lex_leq(a, a),
    decreases a.len(),
{
    if a.len() > 0 {
        lemma_lex_leq_reflexive(a.drop_first());
    }
}

pub proof fn lemma_lex_leq_antisymmetric(a: Seq<char>, b: Seq<char>)
    requires
        lex_leq(a, b),
        lex_leq(b, a),
    ensures
        a == b,
    decreases a.len(),
{
    if a.len() == 0 {
        assert(a =~= b);
    } else if b.len() == 0 {
        assert(!lex_leq(a, b));
    } else if a[0] == b[0] {
        assert(lex_leq(a.drop_first(), b.drop_first()));
        assert(lex_leq(b.drop_first(), a.drop_first()));
        lemma_lex_leq_antisymmetric(a.drop_first(), b.drop_first());
        assert(a.drop_first() == b.drop_first());
        assert(a.drop_first().len() == a.len() - 1);
        assert(b.drop_first().len() == b.len() - 1);
        assert(a.len() == b.len());
        assert forall|i: int| 0 <= i < a.len() implies a[i] == b[i] by {
            if i > 0 {
                assert(a[i] == a.drop_first()[i - 1]);
                assert(b[i] == b.drop_first()[i - 1]);
            }
        }
        assert(a =~= b);
    } else {
        assert(!((a[0] as int) < (b[0] as int) && (b[0] as int) < (a[0] as int)));
    }
}

pub proof fn lemma_lex_leq_transitive(a: Seq<char>, b: Seq<char>, c: Seq<char>)
    requires
        lex_leq(a, b),
        lex_leq(b, c),
    ensures
        lex_leq(a, c),
    decreases a.len(),
{
    if a.len() > 0 && b.len() > 0 && c.len() > 0 {
        if a[0] == b[0] && b[0] == c[0] {
            lemma_lex_leq_transitive(a.drop_first(), b.drop_first(), c.drop_first());
        }
    }
}

pub proof fn lemma_lex_leq_connected(a: Seq<char>, b: Seq<char>)
    ensures
        lex_leq(a, b) || lex_leq(b, a),
    decreases a.len(),
{
    if a.len() > 0 && b.len() > 0 && a[0] == b[0] {
        lemma_lex_leq_connected(a.drop_first(), b.drop_first());
    }
}

/// Lexicographic comparison is a total ordering, so a set of distinct names
/// has exactly one sorted arrangement.
pub proof fn lemma_lex_total_ordering()
    ensures
        total_ordering(lex_leq_fn()),
{
    assert(reflexive(lex_leq_fn())) by {
        assert forall|a: Seq<char>| #[trigger] lex_leq_fn()(a, a) by {
            lemma_lex_leq_reflexive(a);
        }
    }
    assert(antisymmetric(lex_leq_fn())) by {
        assert forall|a: Seq<char>, b: Seq<char>|
            #[trigger] lex_leq_fn()(a, b) && #[trigger] lex_leq_fn()(b, a) implies a == b by {
            lemma_lex_leq_antisymmetric(a, b);
        }
    }
    assert(transitive(lex_leq_fn())) by {
        assert forall|a: Seq<char>, b: Seq<char>, c: Seq<char>|
            #[trigger] lex_leq_fn()(a, b) && #[trigger] lex_leq_fn()(b, c) implies lex_leq_fn()(
            a,
            c,
        ) by {
            lemma_lex_leq_transitive(a, b, c);
        }
    }
    assert(strongly_connected(lex_leq_fn())) by {
        assert forall|a: Seq<char>, b: Seq<char>|
            #[trigger] lex_leq_fn()(a, b) || #[trigger] lex_leq_fn()(b, a) by {
            lemma_lex_leq_connected(a, b);
        }
    }
}

/// Executable lexicographic comparison of two strings.
pub fn str_lex_leq(a: &str, b: &str) -> (r: bool)
    ensures
        r == lex_leq(a@, b@),
{
    let la = a.unicode_len();
    let lb = b.unicode_len();
    let mut i: usize = 0;
    proof {
        assert(a@.skip(0) =~= a@);
        assert(b@.skip(0) =~= b@);
    }
    loop
        invariant
            i <= la,
            i <= lb,
            la == a@.len(),
            lb == b@.len(),
            lex_leq(a@, b@) == lex_leq(a@.skip(i as int), b@.skip(i as int)),
        decreases la - i,
    {
        if i == la {
            return true;
        }
        if i == lb {
            return false;
        }
        let ca = a.get_char(i);
        let cb = b.get_char(i);
        if ca != cb {
            return (ca as u32) < (cb as u32);
        }
        proof {
            assert(a@.skip(i as int).drop_first() =~= a@.skip(i + 1));
            assert(b@.skip(i as int).drop_first() =~= b@.skip(i + 1));
        }
        i = i + 1;
    }
}

/// Executable equality of two strings, as equality of their character
/// sequences.
pub fn str_eq(a: &str, b: &str) -> (r: bool)
    ensures
        r == (a@ == b@),
{
    let la = a.unicode_len();
    let lb = b.unicode_len();
    if la != lb {
        return false;
    }
    let mut i: usize = 0;
    while i < la
        invariant
            i <= la,
            la == a@.len(),
            la == b@.len(),
            forall|k: int| 0 <= k < i ==> a@[k] == b@[k],
        decreases la - i,
    {
        if a.get_char(i) != b.get_char(i) {
            return false;
        }
        i = i + 1;
    }
    proof {
        assert(a@ =~= b@);
    }
    true
}

/// Executable equality of two name paths, as equality of their views.
pub fn names_eq(a: &Vec<String>, b: &Vec<String>) -> (r: bool)
    ensures
        r == (a.deep_view() == b.deep_view()),
{
    proof {
        assert(a.deep_view().len() == a@.len());
        assert(b.deep_view().len() == b@.len());
    }
    if a.len() != b.len() {
        return false;
    }
    let mut i: usize = 0;
    while i < a.len()
        invariant
            i <= a@.len(),
            a@.len() == b@.len(),
            forall|k: int| 0 <= k < i ==> a.deep_view()[k] == b.deep_view()[k],
        decreases a@.len() - i,
    {
        if !str_eq(a[i].as_str(), b[i].as_str()) {
            proof {
                assert(a.deep_view()[i as int] == a@[i as int]@);
                assert(b.deep_view()[i as int] == b@[i as int]@);
            }
            return false;
        }
        proof {
            assert(a.deep_view()[i as int] == a@[i as int]@);
            assert(b.deep_view()[i as int] == b@[i as int]@);
        }
        i = i + 1;
    }
    proof {
        assert(a.deep_view() =~= b.deep_view());
    }
    true
}

/// Executable check that a sequence of names is in lexicographic order.
pub fn names_sorted(v: &Vec<String>) -> (r: bool)
    ensures
        r == sorted_by(v.deep_view(), lex_leq_fn()),
{
    let ghost dv = v.deep_view();
    if v.len() <= 1 {
        return true;
    }
    let mut i: usize = 1;
    while i < v.len()
        invariant
            1 <= i <= dv.len(),
            dv == v.deep_view(),
            dv.len() == v@.len(),
            forall|k1: int, k2: int| 0 <= k1 < k2 < i ==> lex_leq(#[trigger] dv[k1], #[trigger] dv[k2]),
        decreases v@.len() - i,
    {
        if !str_lex_leq(v[i - 1].as_str(), v[i].as_str()) {
            proof {
                assert(!lex_leq(dv[i - 1], dv[i as int]));
                assert(!sorted_by(dv, lex_leq_fn())) by {
                    if sorted_by(dv, lex_leq_fn()) {
                        assert(lex_leq_fn()(dv[i - 1], dv[i as int]));
                    }
                }
            }
            return false;
        }
        proof {
            assert forall|k1: int, k2: int|
                0 <= k1 < k2 < i + 1 implies lex_leq(#[trigger] dv[k1], #[trigger] dv[k2]) by {
                if k2 == i {
                    if k1 < i - 1 {
                        lemma_lex_leq_transitive(dv[k1], dv[i - 1], dv[i as int]);
                    }
                }
            }
        }
        i = i + 1;
    }
    proof {
        assert(sorted_by(dv, lex_leq_fn())) by {
            assert forall|k1: int, k2: int|
                0 <= k1 < k2 < dv.len() implies #[trigger] lex_leq_fn()(dv[k1], dv[k2]) by {
                assert(lex_leq(dv[k1], dv[k2]));
            }
        }
    }
    true
}

/// Sort a vector of names into lexicographic order. The result holds the
/// same names (as a multiset) in sorted order.
pub fn sort_names(input: Vec<String>) -> (r: Vec<String>)
    ensures
        sorted_by(crate::seqs::strs_view(r@), lex_leq_fn()),
        crate::seqs::strs_view(r@).to_multiset() == crate::seqs::strs_view(input@).to_multiset(),
{
    let ghost orig = crate::seqs::strs_view(input@);
    let ghost n = input@.len();
    let mut v = input;
    if v.len() <= 1 {
        return v;
    }
    let mut i: usize = 1;
    while i < v.len()
        invariant
            1 <= i <= n,
            v@.len() == n,
            crate::seqs::strs_view(v@).to_multiset() == orig.to_multiset(),
            sorted_by(crate::seqs::strs_view(v@).subrange(0, i as int), lex_leq_fn()),
        decreases n - i,
    {
        let ghost dv_outer = crate::seqs::strs_view(v@);
        let mut j: usize = i;
        proof {
            assert forall|k1: int, k2: int|
                0 <= k1 < k2 <= i && k2 != i implies lex_leq(dv_outer[k1], dv_outer[k2]) by {
                let sub = dv_outer.subrange(0, i as int);
                assert(lex_leq_fn()(sub[k1], sub[k2]));
                assert(sub[k1] == dv_outer[k1]);
                assert(sub[k2] == dv_outer[k2]);
            }
        }
        while j > 0 && !str_lex_leq(v[j - 1].as_str(), v[j].as_str())
            invariant
                0 <= j <= i < v@.len(),
                v@.len() == n,
                crate::seqs::strs_view(v@).to_multiset() == orig.to_multiset(),
                forall|k1: int, k2: int|
                    0 <= k1 < k2 <= i && k2 != j ==> lex_leq(
                        #[trigger] crate::seqs::strs_view(v@)[k1],
                        #[trigger] crate::seqs::strs_view(v@)[k2],
                    ),
                forall|k: int|
                    j < k <= i ==> lex_leq(
                        crate::seqs::strs_view(v@)[j as int],
                        #[trigger] crate::seqs::strs_view(v@)[k],
                    ),
            decreases j,
        {
            let ghost dv0 = crate::seqs::strs_view(v@);
            let ghost vs0 = v@;
            proof {
                lemma_lex_leq_connected(dv0[j - 1], dv0[j as int]);
            }
            let x = v.remove(j);
            v.insert(j - 1, x);
            proof {
                let dv1 = crate::seqs::strs_view(v@);
                crate::seqs::lemma_strs_view_remove(vs0, j as int);
                crate::seqs::lemma_strs_view_insert(vs0.remove(j as int), j - 1, vs0[j as int]);
                crate::seqs::lemma_multiset_move(dv0, j as int, j - 1);
                assert(dv1 =~= dv0.remove(j as int).insert(j - 1, dv0[j as int]));
                dv0.remove_ensures(j as int);
                dv0.remove(j as int).insert_ensures(j - 1, dv0[j as int]);
                assert(dv1[j - 1] == dv0[j as int]);
                assert(dv1[j as int] == dv0[j - 1]);
                assert(forall|k: int| 0 <= k < j - 1 ==> dv1[k] == dv0[k]);
                assert(forall|k: int| j < k < dv0.len() ==> dv1[k] == dv0[k]);
            }
            j = j - 1;
        }
        proof {
            let dv = crate::seqs::strs_view(v@);
            assert forall|k1: int, k2: int|
                0 <= k1 < k2 <= i implies lex_leq(dv[k1], dv[k2]) by {
                if k2 == j {
                    if k1 < j - 1 {
                        lemma_lex_leq_transitive(dv[k1], dv[j - 1], dv[j as int]);
                    }
                }
            }
            assert(sorted_by(dv.subrange(0, i + 1), lex_leq_fn())) by {
                assert forall|k1: int, k2: int|
                    0 <= k1 < k2 < i + 1 implies #[trigger] lex_leq_fn()(
                    dv.subrange(0, i + 1)[k1],
                    dv.subrange(0, i + 1)[k2],
                ) by {
                    assert(dv.subrange(0, i + 1)[k1] == dv[k1]);
                    assert(dv.subrange(0, i + 1)[k2] == dv[k2]);
                    assert(lex_leq(dv[k1], dv[k2]));
                }
            }
        }
        i = i + 1;
    }
    proof {
        assert(crate::seqs::strs_view(v@).subrange(0, v@.len() as int) =~= crate::seqs::strs_view(
            v@,
        ));
    }
    v
}

/// Two sequences without duplicates, sorted by one total order and holding
/// the same elements, are the same sequence.
pub proof fn lemma_unique_sorted<A>(a: Seq<A>, b: Seq<A>, leq: spec_fn(A, A) -> bool)
    requires
        total_ordering(leq),
        sorted_by(a, leq),
        sorted_by(b, leq),
        a.no_duplicates(),
        b.no_duplicates(),
        forall|x: A| a.contains(x) <==> b.contains(x),
    ensures
        a == b,
    decreases a.len(),
{
    if a.len() == 0 {
        if b.len() > 0 {
            assert(b.contains(b[0]));
            assert(a.contains(b[0]));
        }
        assert(a =~= b);
    } else if b.len() == 0 {
        assert(a.contains(a[0]));
        assert(b.contains(a[0]));
    } else {
        assert(a.contains(a[0]));
        assert(b.contains(b[0]));
        let j = choose|j: int| 0 <= j < b.len() && b[j] == a[0];
        assert(leq(b[0], a[0])) by {
            if j != 0 {
                assert(leq(b[0], b[j]));
            }
        }
        let k = choose|k: int| 0 <= k < a.len() && a[k] == b[0];
        assert(leq(a[0], b[0])) by {
            if k != 0 {
                assert(leq(a[0], a[k]));
            }
        }
        assert(a[0] == b[0]);
        let at = a.drop_first();
        let bt = b.drop_first();
        assert(forall|i: int| 0 <= i < at.len() ==> at[i] == a[i + 1]);
        assert(forall|i: int| 0 <= i < bt.len() ==> bt[i] == b[i + 1]);
        assert forall|x: A| at.contains(x) implies bt.contains(x) by {
            let i = choose|i: int| 0 <= i < at.len() && at[i] == x;
            assert(a[i + 1] == x);
            assert(a.contains(x));
            assert(x != a[0]);
            assert(b.contains(x));
            let i2 = choose|i2: int| 0 <= i2 < b.len() && b[i2] == x;
            assert(i2 != 0);
            assert(bt[i2 - 1] == x);
        }
        assert forall|x: A| bt.contains(x) implies at.contains(x) by {
            let i = choose|i: int| 0 <= i < bt.len() && bt[i] == x;
            assert(b[i + 1] == x);
            assert(b.contains(x));
            assert(x != b[0]);
            assert(a.contains(x));
            let i2 = choose|i2: int| 0 <= i2 < a.len() && a[i2] == x;
            assert(i2 != 0);
            assert(at[i2 - 1] == x);
        }
        lemma_unique_sorted(at, bt, leq);
        assert(a.len() == b.len());
        assert forall|i: int| 0 <= i < a.len() implies a[i] == b[i] by {
            if i > 0 {
                assert(a[i] == at[i - 1]);
                assert(b[i] == bt[i - 1]);
            }
        }
        assert(a =~= b);
    }
}

/// Clone one string, keeping its view.
pub fn clone_string(s: &String) -> (r: String)
    ensures
        r@ == s@,
{
    s.clone()
}

/// Clone a vector of strings, keeping its view.
pub fn clone_names(v: &Vec<String>) -> (r: Vec<String>)
    ensures
        r.deep_view() == v.deep_view(),
{
    let mut r: Vec<String> = Vec::new();
    let mut i: usize = 0;
    while i < v.len()
        invariant
            i <= v@.len(),
            r@.len() == i,
            forall|k: int| 0 <= k < i ==> r.deep_view()[k] == v.deep_view()[k],
        decreases v@.len() - i,
    {
        r.push(v[i].clone());
        proof {
            assert(r.deep_view()[i as int] == r@[i as int]@);
            assert(v.deep_view()[i as int] == v@[i as int]@);
            assert(forall|k: int| 0 <= k < i ==> r.deep_view()[k] == v.deep_view()[k]);
        }
        i = i + 1;
    }
    proof {
        assert(r.deep_view() =~= v.deep_view());
    }
    r
}

/// A sorted permutation of names without duplicates is the one canonical
/// `sort_by` arrangement.
pub proof fn lemma_sorted_names_canonical(sorted: Seq<Seq<char>>, input: Seq<Seq<char>>)
    requires
        sorted_by(sorted, lex_leq_fn()),
        sorted.to_multiset() == input.to_multiset(),
        input.no_duplicates(),
    ensures
        sorted == input.sort_by(lex_leq_fn()),
{
    broadcast use vstd::seq_lib::group_to_multiset_ensures;

    lemma_lex_total_ordering();
    input.lemma_sort_by_ensures(lex_leq_fn());
    let canon = input.sort_by(lex_leq_fn());
    input.lemma_multiset_has_no_duplicates();
    assert forall|x: Seq<char>| sorted.to_multiset().contains(x) implies sorted.to_multiset().count(
        x,
    ) == 1 by {
        assert(input.to_multiset().count(x) == 1);
    }
    sorted.lemma_multiset_has_no_duplicates_conv();
    assert forall|x: Seq<char>| canon.to_multiset().contains(x) implies canon.to_multiset().count(
        x,
    ) == 1 by {
        assert(input.to_multiset().count(x) == 1);
    }
    canon.lemma_multiset_has_no_duplicates_conv();
    assert forall|x: Seq<char>| sorted.contains(x) implies canon.contains(x) by {
        assert(sorted.to_multiset().count(x) > 0);
        assert(input.to_multiset().count(x) > 0);
        assert(canon.to_multiset().count(x) > 0);
    }
    assert forall|x: Seq<char>| canon.contains(x) implies sorted.contains(x) by {
        assert(canon.to_multiset().count(x) > 0);
        assert(sorted.to_multiset().count(x) > 0);
    }
    lemma_unique_sorted(sorted, canon, lex_leq_fn());
}

} // verus!
