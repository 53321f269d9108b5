//! The arena heap: every runtime value lives in one contiguous array and is
//! addressed by index. Compaction copies the live values into a fresh arena,
//! leaving forwarding cells behind so shared structure is copied once.

use vstd::prelude::*;
use crate::program::{ConstructorIndex, FunctionIndex};

verus! {

/// A heap address: an index into the arena.
#[derive(Clone, Copy, Debug, PartialEq, Eq, Structural)]
pub struct Ptr(pub usize);

/// One heap cell.
#[derive(Debug)]
pub enum Value {
    IntVal(i64),
    StrVal(String),
    ModuleFnRef(FunctionIndex),
    Intrinsic(String),
    VariantVal(ConstructorIndex, Vec<Ptr>),
    LambdaVal(FunctionIndex, Vec<Ptr>),
    ThwartPtr(usize),
}

/// Mathematical view of a heap cell.
pub enum SpecValue {
    Int(i64),
    Str(Seq<char>),
    FnRef(FunctionIndex),
    Intr(Seq<char>),
    Variant(ConstructorIndex, Seq<Ptr>),
    Lambda(FunctionIndex, Seq<Ptr>),
    Thwart(usize),
}

impl DeepView for Value {
    type V = SpecValue;

    open spec fn deep_view(&self) -> SpecValue {
        match self {
            Value::IntVal(n) => SpecValue::Int(*n),
            Value::StrVal(s) => SpecValue::Str(s@),
            Value::ModuleFnRef(f) => SpecValue::FnRef(*f),
            Value::Intrinsic(s) => SpecValue::Intr(s@),
            Value::VariantVal(c, ps) => SpecValue::Variant(*c, ps@),
            Value::LambdaVal(f, ps) => SpecValue::Lambda(*f, ps@),
            Value::ThwartPtr(j) => SpecValue::Thwart(*j),
        }
    }
}

/// The fully dereferenced shape of a heap value: what a value is once every
/// interior pointer is followed.
pub enum Tree {
    Int(i64),
    Str(Seq<char>),
    FnRef(FunctionIndex),
    Intr(Seq<char>),
    Variant(ConstructorIndex, Seq<Tree>),
    Lambda(FunctionIndex, Seq<Tree>),
    Invalid,
}

/// A live cell holds no forwarding pointer, and its interior pointers point
/// strictly downwards (values only reference earlier allocations).
pub open spec fn val_wf(v: SpecValue, bound: int) -> bool {
    match v {
        SpecValue::Variant(c, ps) => forall|i: int|
            0 <= i < ps.len() ==> ((#[trigger] ps[i]).0 as int) < bound,
        SpecValue::Lambda(f, ps) => forall|i: int|
            0 <= i < ps.len() ==> ((#[trigger] ps[i]).0 as int) < bound,
        SpecValue::Thwart(j) => false,
        _ => true,
    }
}

pub open spec fn heap_wf(h: Seq<SpecValue>) -> bool {
    forall|i: int| 0 <= i < h.len() ==> val_wf(#[trigger] h[i], i)
}

/// The tree a heap address denotes.
pub open spec fn tree_of(h: Seq<SpecValue>, p: int) -> Tree
    decreases p + 1, 0int,
{
    if 0 <= p < h.len() {
        match h[p] {
            SpecValue::Int(n) => Tree::Int(n),
            SpecValue::Str(s) => Tree::Str(s),
            SpecValue::FnRef(f) => Tree::FnRef(f),
            SpecValue::Intr(s) => Tree::Intr(s),
            SpecValue::Variant(c, ps) => Tree::Variant(c, trees_of(h, ps, p)),
            SpecValue::Lambda(f, ps) => Tree::Lambda(f, trees_of(h, ps, p)),
            SpecValue::Thwart(j) => Tree::Invalid,
        }
    } else {
        Tree::Invalid
    }
}

/// The trees a run of interior pointers denote, all below `bound`.
pub open spec fn trees_of(h: Seq<SpecValue>, ps: Seq<Ptr>, bound: int) -> Seq<Tree>
    decreases bound, ps.len() + 1,
{
    if ps.len() == 0 {
        Seq::empty()
    } else {
        let head = if 0 <= (ps[0].0 as int) < bound {
            tree_of(h, ps[0].0 as int)
        } else {
            Tree::Invalid
        };
        seq![head] + trees_of(h, ps.drop_first(), bound)
    }
}

/// Extending a heap does not change the trees of its existing cells.
pub proof fn lemma_tree_prefix(h1: Seq<SpecValue>, h2: Seq<SpecValue>, p: int)
    requires
        h1.is_prefix_of(h2),
        0 <= p < h1.len(),
    ensures
        tree_of(h2, p) == tree_of(h1, p),
    decreases p + 1, 0int,
{
    assert(h2[p] == h1[p]);
    match h1[p] {
        SpecValue::Variant(c, ps) => {
            lemma_trees_prefix(h1, h2, ps, p);
        },
        SpecValue::Lambda(f, ps) => {
            lemma_trees_prefix(h1, h2, ps, p);
        },
        _ => {},
    }
}

pub proof fn lemma_trees_prefix(h1: Seq<SpecValue>, h2: Seq<SpecValue>, ps: Seq<Ptr>, bound: int)
    requires
        h1.is_prefix_of(h2),
        0 <= bound <= h1.len(),
    ensures
        trees_of(h2, ps, bound) == trees_of(h1, ps, bound),
    decreases bound, ps.len() + 1,
{
    if ps.len() > 0 {
        if 0 <= (ps[0].0 as int) < bound {
            lemma_tree_prefix(h1, h2, ps[0].0 as int);
        }
        lemma_trees_prefix(h1, h2, ps.drop_first(), bound);
    }
}

/// `trees_of` is the pointwise image of `tree_of`.
pub proof fn lemma_trees_pointwise(h: Seq<SpecValue>, ps: Seq<Ptr>, bound: int)
    ensures
        trees_of(h, ps, bound).len() == ps.len(),
        forall|j: int|
            0 <= j < ps.len() ==> #[trigger] trees_of(h, ps, bound)[j] == (if 0 <= (
            ps[j].0 as int) < bound {
                tree_of(h, ps[j].0 as int)
            } else {
                Tree::Invalid
            }),
    decreases ps.len(),
{
    if ps.len() > 0 {
        lemma_trees_pointwise(h, ps.drop_first(), bound);
        assert forall|j: int|
            0 <= j < ps.len() implies #[trigger] trees_of(h, ps, bound)[j] == (if 0 <= (
        ps[j].0 as int) < bound {
            tree_of(h, ps[j].0 as int)
        } else {
            Tree::Invalid
        }) by {
            if j > 0 {
                assert(trees_of(h, ps, bound)[j] == trees_of(h, ps.drop_first(), bound)[j - 1]);
                assert(ps.drop_first()[j - 1] == ps[j]);
            }
        }
    }
}

/// The arena.
#[derive(Debug)]
pub struct GC(pub Vec<Value>);

impl View for GC {
    type V = Seq<SpecValue>;

    open spec fn view(&self) -> Seq<SpecValue> {
        self.0.deep_view()
    }
}

impl GC {
    /// A fresh, empty arena.
    pub fn new() -> (r: GC)
        ensures
            r@ == Seq::<SpecValue>::empty(),
    {
        let r = GC(Vec::new());
        proof {
            assert(r@ =~= Seq::<SpecValue>::empty());
        }
        r
    }

    /// How many cells the arena holds.
    pub fn len(&self) -> (r: usize)
        ensures
            r == self@.len(),
    {
        self.0.len()
    }

    /// The cell at a raw index.
    pub fn raw_at(&self, i: usize) -> (r: &Value)
        requires
            i < self@.len(),
        ensures
            r.deep_view() == self@[i as int],
    {
        &self.0[i]
    }

    /// The cell a pointer addresses.
    pub fn at(&self, i: Ptr) -> (r: &Value)
        requires
            i.0 < self@.len(),
        ensures
            r.deep_view() == self@[i.0 as int],
    {
        self.raw_at(i.0)
    }

    /// Append a value; its address is the old length.
    pub fn allocate(&mut self, v: Value) -> (r: Ptr)
        ensures
            final(self)@ == old(self)@.push(v.deep_view()),
            r.0 == old(self)@.len(),
    {
        let ghost v_dv = v.deep_view();
        self.0.push(v);
        proof {
            assert(self@ =~= old(self)@.push(v_dv));
        }
        Ptr(self.0.len() - 1)
    }

    /// Overwrite the cell at a raw index.
    pub fn set(&mut self, i: usize, v: Value)
        requires
            i < self@.len(),
        ensures
            final(self)@ == old(self)@.update(i as int, v.deep_view()),
    {
        let ghost v_dv = v.deep_view();
        self.0[i] = v;
        proof {
            assert(self@ =~= old(self)@.update(i as int, v_dv));
        }
    }
}

/// Copy a run of pointers.
pub fn clone_ptrs(ps: &Vec<Ptr>) -> (r: Vec<Ptr>)
    ensures
        r@ == ps@,
{
    let mut r: Vec<Ptr> = Vec::new();
    let mut i: usize = 0;
    while i < ps.len()
        invariant
            i <= ps@.len(),
            r@.len() == i,
            forall|k: int| 0 <= k < i ==> r@[k] == ps@[k],
        decreases ps@.len() - i,
    {
        r.push(ps[i]);
        i = i + 1;
    }
    proof {
        assert(r@ =~= ps@);
    }
    r
}

/// Copy one heap cell, keeping its view.
pub fn clone_value(v: &Value) -> (r: Value)
    ensures
        r.deep_view() == v.deep_view(),
{
    match v {
        Value::IntVal(n) => Value::IntVal(*n),
        Value::StrVal(s) => Value::StrVal(crate::lex::clone_string(s)),
        Value::ModuleFnRef(f) => Value::ModuleFnRef(*f),
        Value::Intrinsic(s) => Value::Intrinsic(crate::lex::clone_string(s)),
        Value::VariantVal(c, ps) => Value::VariantVal(*c, clone_ptrs(ps)),
        Value::LambdaVal(f, ps) => Value::LambdaVal(*f, clone_ptrs(ps)),
        Value::ThwartPtr(j) => Value::ThwartPtr(*j),
    }
}

/// Mid-compaction invariant: the source arena's cells are untouched or
/// forward into the target arena with the tree they had before compaction
/// started (`src0`); the target arena is well formed.
pub open spec fn thwart_inv(src0: Seq<SpecValue>, src: Seq<SpecValue>, dst: Seq<SpecValue>) -> bool {
    &&& src.len() == src0.len()
    &&& heap_wf(src0)
    &&& heap_wf(dst)
    &&& forall|i: int|
        0 <= i < src.len() ==> (#[trigger] src[i]) == src0[i] || (src[i] matches SpecValue::Thwart(
            j,
        ) && 0 <= (j as int) < dst.len() && tree_of(dst, j as int) == tree_of(src0, i))
}

/// Forward one pointer: follow an existing forwarding cell, or copy the
/// value (its interior pointers first) into the target arena, leave a
/// forwarding cell behind, and rewrite the pointer. The rewritten pointer
/// denotes, in the target arena, the tree it denoted before compaction.
#[verifier::rlimit(100)]
pub fn compact_hit(src: &mut GC, dst: &mut Vec<Value>, ptr: &mut Ptr, Ghost(src0): Ghost<
    Seq<SpecValue>,
>)
    requires
        thwart_inv(src0, old(src)@, old(dst).deep_view()),
        count_inv(src0, old(src)@, old(dst).deep_view()),
        old(ptr).0 < old(src)@.len(),
    ensures
        thwart_inv(src0, final(src)@, final(dst).deep_view()),
        count_inv(src0, final(src)@, final(dst).deep_view()),
        final(src)@.len() == old(src)@.len(),
        old(dst).deep_view().is_prefix_of(final(dst).deep_view()),
        final(ptr).0 < final(dst).deep_view().len(),
        tree_of(final(dst).deep_view(), final(ptr).0 as int) == tree_of(src0, old(ptr).0 as int),
        thwart_set(final(src)@) == thwart_set(old(src)@).union(
            reach_from(src0, old(ptr).0 as int),
        ),
        (old(src)@[old(ptr).0 as int] matches SpecValue::Thwart(j) ==> final(ptr).0 == j
            && final(dst).deep_view() == old(dst).deep_view() && final(src)@ == old(src)@),
        forall|j: int|
            old(dst).deep_view().len() <= j < final(dst).deep_view().len() ==> #[trigger] reach_from(
                final(dst).deep_view(),
                final(ptr).0 as int,
            ).contains(j),
        forall|i: int|
            (old(ptr).0 as int) < i < old(src)@.len() ==> final(src)@[i] == #[trigger] old(
                src,
            )@[i],
    decreases ptr.0,
{
    let ghost pre = ptr.0 as int;
    let ghost base_dst = dst.deep_view();
    let ghost src_entry = src@;
    let p_usize = ptr.0;
    let v = clone_value(src.raw_at(p_usize));
    match v {
        Value::ThwartPtr(j) => {
            proof {
                assert(old(src)@[pre] matches SpecValue::Thwart(jj) && jj == j);
                assert(dst.deep_view().is_prefix_of(dst.deep_view())) by {
                    assert(dst.deep_view() =~= dst.deep_view().subrange(
                        0,
                        dst.deep_view().len() as int,
                    ));
                }
                assert(thwart_set(src@).contains(pre));
                assert(reach_from(src0, pre).subset_of(thwart_set(src@)));
                assert(thwart_set(src@) =~= thwart_set(src@).union(reach_from(src0, pre)));
            }
            ptr.0 = j;
        },
        Value::VariantVal(c, ptrs) => {
            let mut ptrs = ptrs;
            proof {
                assert(src@[pre] == src0[pre]);
                assert(val_wf(src0[pre], pre));
            }
            let ghost ps0 = ptrs@;
            proof {
                assert(ps0.take(0) =~= Seq::<Ptr>::empty());
                assert(reach_many(src0, Seq::<Ptr>::empty(), pre) == Set::<int>::empty());
                assert(thwart_set(src@) =~= thwart_set(src_entry).union(
                    reach_many(src0, ps0.take(0), pre),
                ));
            }
            let mut i: usize = 0;
            while i < ptrs.len()
                invariant
                    i <= ps0.len(),
                    ptrs@.len() == ps0.len(),
                    thwart_inv(src0, src@, dst.deep_view()),
                    count_inv(src0, src@, dst.deep_view()),
                    (thwart_set(src@) == thwart_set(src_entry).union(
                        reach_many(src0, ps0.take(i as int), pre),
                    )),
                    src@.len() == src0.len(),
                    0 <= pre < src0.len(),
                    ptr.0 as int == pre,
                    src@[pre] == src0[pre],
                    forall|q: int| pre < q < src@.len() ==> src@[q] == #[trigger] src_entry[q],
                    src_entry.len() == src@.len(),
                    base_dst.is_prefix_of(dst.deep_view()),
                    forall|j: int| i <= j < ps0.len() ==> ptrs@[j] == ps0[j],
                    forall|j: int| 0 <= j < ps0.len() ==> ((#[trigger] ps0[j]).0 as int) < pre,
                    forall|j: int|
                        0 <= j < i ==> ((#[trigger] ptrs@[j]).0 as int) < dst.deep_view().len(),
                    forall|j: int|
                        0 <= j < i ==> tree_of(
                            dst.deep_view(),
                            (#[trigger] ptrs@[j]).0 as int,
                        ) == tree_of(src0, ps0[j].0 as int),
                    forall|jj: int|
                        base_dst.len() <= jj < dst.deep_view().len() ==> #[trigger] covered(
                            dst.deep_view(),
                            ptrs@,
                            i as int,
                            jj,
                        ),
                decreases ps0.len() - i,
            {
                let mut pj = ptrs[i];
                proof {
                    assert(pj == ps0[i as int]);
                    assert((pj.0 as int) < pre);
                }
                let ghost dst_before = dst.deep_view();
                let ghost src_before = src@;
                let ghost ptrs_pre = ptrs@;
                compact_hit(src, dst, &mut pj, Ghost(src0));
                proof {
                    assert forall|j: int|
                        0 <= j < i implies tree_of(
                        dst.deep_view(),
                        (#[trigger] ptrs@[j]).0 as int,
                    ) == tree_of(src0, ps0[j].0 as int) by {
                        lemma_tree_prefix(dst_before, dst.deep_view(), ptrs@[j].0 as int);
                    }
                    crate::seqs::lemma_prefix_trans(
                        base_dst,
                        dst_before,
                        dst.deep_view(),
                    );
                    assert forall|q: int|
                        pre < q < src@.len() implies src@[q] == #[trigger] src_entry[q] by {
                        assert(src@[q] == src_before[q]);
                    }
                    assert(src@[pre] == src_before[pre]);
                    assert(thwart_set(src@) == thwart_set(src_before).union(
                        reach_from(src0, ps0[i as int].0 as int),
                    ));
                    lemma_reach_many_snoc(src0, ps0.take(i as int), ps0[i as int], pre);
                    assert(ps0.take(i + 1) =~= ps0.take(i as int).push(ps0[i as int]));
                    assert(0 <= (ps0[i as int].0 as int) < pre);
                    assert(thwart_set(src@) =~= thwart_set(src_entry).union(
                        reach_many(src0, ps0.take(i + 1), pre),
                    ));
                }
                ptrs[i] = pj;
                proof {
                    let ghost ptrs_now = ptrs@;
                    assert forall|jj: int|
                        base_dst.len() <= jj < dst.deep_view().len() implies #[trigger] covered(
                        dst.deep_view(),
                        ptrs_now,
                        i + 1,
                        jj,
                    ) by {
                        if jj < dst_before.len() {
                            assert(covered(dst_before, ptrs_pre, i as int, jj));
                            let k = choose|k: int|
                                0 <= k < i && (#[trigger] reach_from(
                                    dst_before,
                                    (ptrs_pre[k]).0 as int,
                                ).contains(jj));
                            assert(ptrs_now[k] == ptrs_pre[k]);
                            lemma_reach_prefix(dst_before, dst.deep_view(), ptrs_now[k].0 as int);
                            assert(reach_from(dst.deep_view(), (ptrs_now[k]).0 as int).contains(
                                jj,
                            ));
                        } else {
                            assert(ptrs_now[i as int] == pj);
                            assert(reach_from(dst.deep_view(), (ptrs_now[i as int]).0 as int).contains(
                                jj,
                            ));
                        }
                    }
                }
                i = i + 1;
            }
            let ghost dst_dv = dst.deep_view();
            let ghost new_ptrs = ptrs@;
            dst.push(Value::VariantVal(c, ptrs));
            let idx = dst.len() - 1;
            proof {
                assert(dst.deep_view() =~= dst_dv.push(SpecValue::Variant(c, new_ptrs)));
                assert(idx as int == dst_dv.len());
                crate::seqs::lemma_prefix_push(dst_dv, SpecValue::Variant(c, new_ptrs));
                crate::seqs::lemma_prefix_trans(base_dst, dst_dv, dst.deep_view());
            }
            let ghost src_mid = src@;
            src.set(p_usize, Value::ThwartPtr(idx));
            ptr.0 = idx;
            proof {
                let dnew = dst.deep_view();
                assert(heap_wf(dnew)) by {
                    assert forall|k: int| 0 <= k < dnew.len() implies val_wf(
                        #[trigger] dnew[k],
                        k,
                    ) by {
                        if k < dst_dv.len() {
                            assert(dnew[k] == dst_dv[k]);
                        } else {
                            assert(dnew[k] == SpecValue::Variant(c, new_ptrs));
                            assert(forall|j: int|
                                0 <= j < new_ptrs.len() ==> ((#[trigger] new_ptrs[j]).0 as int)
                                    < dst_dv.len());
                        }
                    }
                }
                assert(tree_of(dnew, idx as int) == tree_of(src0, pre)) by {
                    lemma_trees_pointwise(dnew, new_ptrs, idx as int);
                    lemma_trees_pointwise(src0, ps0, pre);
                    assert forall|j: int|
                        0 <= j < new_ptrs.len() implies trees_of(dnew, new_ptrs, idx as int)[j]
                        == trees_of(src0, ps0, pre)[j] by {
                        lemma_tree_prefix(dst_dv, dnew, new_ptrs[j].0 as int);
                    }
                    assert(trees_of(dnew, new_ptrs, idx as int) =~= trees_of(src0, ps0, pre));
                    assert(src0[pre] == SpecValue::Variant(c, ps0));
                }
                assert(thwart_inv(src0, src@, dnew)) by {
                    assert forall|k: int|
                        0 <= k < src@.len() implies (#[trigger] src@[k]) == src0[k] || (
                    src@[k] matches SpecValue::Thwart(j) && 0 <= (j as int) < dnew.len()
                        && tree_of(dnew, j as int) == tree_of(src0, k)) by {
                        if k == pre {
                            assert(src@[k] == SpecValue::Thwart(idx));
                        } else {
                            assert(src@[k] == src_mid[k]);
                            if !(src@[k] == src0[k]) {
                                assert(src_mid[k] matches SpecValue::Thwart(j) && 0 <= (
                                j as int) < dst_dv.len() && tree_of(dst_dv, j as int) == tree_of(
                                    src0,
                                    k,
                                ));
                                if let SpecValue::Thwart(j) = src_mid[k] {
                                    lemma_tree_prefix(dst_dv, dnew, j as int);
                                }
                            }
                        }
                    }
                }
                broadcast use vstd::set::group_set_axioms;

                assert(ps0.take(ps0.len() as int) =~= ps0);
                assert(thwart_set(src_mid) == thwart_set(src_entry).union(
                    reach_many(src0, ps0, pre),
                ));
                assert(!(src0[pre] is Thwart));
                assert(!thwart_set(src_mid).contains(pre));
                assert(thwart_set(src@) =~= thwart_set(src_mid).insert(pre));
                assert(reach_from(src0, pre) == reach_many(src0, ps0, pre).insert(pre));
                assert(thwart_set(src@) =~= thwart_set(src_entry).union(reach_from(src0, pre)));
                assert(thwart_set(src@).len() == thwart_set(src_mid).len() + 1);
                assert(reach_many(src0, ps0, pre).subset_of(thwart_set(src_mid)));
                assert forall|k2: int| #[trigger]
                    thwart_set(src@).contains(k2) implies reach_from(src0, k2).subset_of(
                    thwart_set(src@),
                ) by {
                    if k2 != pre {
                        assert(thwart_set(src_mid).contains(k2));
                        assert(reach_from(src0, k2).subset_of(thwart_set(src_mid)));
                    }
                }
                assert(dnew[idx as int] == SpecValue::Variant(c, new_ptrs));
                assert(reach_from(dnew, idx as int) == reach_many(dnew, new_ptrs, idx as int).insert(
                    idx as int,
                ));
                assert forall|j2: int|
                    base_dst.len() <= j2 < dnew.len() implies #[trigger] reach_from(
                    dnew,
                    idx as int,
                ).contains(j2) by {
                    if j2 != idx as int {
                        assert(covered(dst_dv, new_ptrs, ps0.len() as int, j2));
                        let k = choose|k: int|
                            0 <= k < ps0.len() && (#[trigger] reach_from(
                                dst_dv,
                                (new_ptrs[k]).0 as int,
                            ).contains(j2));
                        lemma_reach_prefix(dst_dv, dnew, new_ptrs[k].0 as int);
                        lemma_reach_many_member(dnew, new_ptrs, idx as int, k);
                    }
                }
            }
        },
        Value::LambdaVal(f, ptrs) => {
            let mut ptrs = ptrs;
            proof {
                assert(src@[pre] == src0[pre]);
                assert(val_wf(src0[pre], pre));
            }
            let ghost ps0 = ptrs@;
            proof {
                assert(ps0.take(0) =~= Seq::<Ptr>::empty());
                assert(reach_many(src0, Seq::<Ptr>::empty(), pre) == Set::<int>::empty());
                assert(thwart_set(src@) =~= thwart_set(src_entry).union(
                    reach_many(src0, ps0.take(0), pre),
                ));
            }
            let mut i: usize = 0;
            while i < ptrs.len()
                invariant
                    i <= ps0.len(),
                    ptrs@.len() == ps0.len(),
                    thwart_inv(src0, src@, dst.deep_view()),
                    count_inv(src0, src@, dst.deep_view()),
                    (thwart_set(src@) == thwart_set(src_entry).union(
                        reach_many(src0, ps0.take(i as int), pre),
                    )),
                    src@.len() == src0.len(),
                    0 <= pre < src0.len(),
                    ptr.0 as int == pre,
                    src@[pre] == src0[pre],
                    forall|q: int| pre < q < src@.len() ==> src@[q] == #[trigger] src_entry[q],
                    src_entry.len() == src@.len(),
                    base_dst.is_prefix_of(dst.deep_view()),
                    forall|j: int| i <= j < ps0.len() ==> ptrs@[j] == ps0[j],
                    forall|j: int| 0 <= j < ps0.len() ==> ((#[trigger] ps0[j]).0 as int) < pre,
                    forall|j: int|
                        0 <= j < i ==> ((#[trigger] ptrs@[j]).0 as int) < dst.deep_view().len(),
                    forall|j: int|
                        0 <= j < i ==> tree_of(
                            dst.deep_view(),
                            (#[trigger] ptrs@[j]).0 as int,
                        ) == tree_of(src0, ps0[j].0 as int),
                    forall|jj: int|
                        base_dst.len() <= jj < dst.deep_view().len() ==> #[trigger] covered(
                            dst.deep_view(),
                            ptrs@,
                            i as int,
                            jj,
                        ),
                decreases ps0.len() - i,
            {
                let mut pj = ptrs[i];
                proof {
                    assert(pj == ps0[i as int]);
                    assert((pj.0 as int) < pre);
                }
                let ghost dst_before = dst.deep_view();
                let ghost src_before = src@;
                let ghost ptrs_pre = ptrs@;
                compact_hit(src, dst, &mut pj, Ghost(src0));
                proof {
                    assert forall|j: int|
                        0 <= j < i implies tree_of(
                        dst.deep_view(),
                        (#[trigger] ptrs@[j]).0 as int,
                    ) == tree_of(src0, ps0[j].0 as int) by {
                        lemma_tree_prefix(dst_before, dst.deep_view(), ptrs@[j].0 as int);
                    }
                    crate::seqs::lemma_prefix_trans(
                        base_dst,
                        dst_before,
                        dst.deep_view(),
                    );
                    assert forall|q: int|
                        pre < q < src@.len() implies src@[q] == #[trigger] src_entry[q] by {
                        assert(src@[q] == src_before[q]);
                    }
                    assert(src@[pre] == src_before[pre]);
                    assert(thwart_set(src@) == thwart_set(src_before).union(
                        reach_from(src0, ps0[i as int].0 as int),
                    ));
                    lemma_reach_many_snoc(src0, ps0.take(i as int), ps0[i as int], pre);
                    assert(ps0.take(i + 1) =~= ps0.take(i as int).push(ps0[i as int]));
                    assert(0 <= (ps0[i as int].0 as int) < pre);
                    assert(thwart_set(src@) =~= thwart_set(src_entry).union(
                        reach_many(src0, ps0.take(i + 1), pre),
                    ));
                }
                ptrs[i] = pj;
                proof {
                    let ghost ptrs_now = ptrs@;
                    assert forall|jj: int|
                        base_dst.len() <= jj < dst.deep_view().len() implies #[trigger] covered(
                        dst.deep_view(),
                        ptrs_now,
                        i + 1,
                        jj,
                    ) by {
                        if jj < dst_before.len() {
                            assert(covered(dst_before, ptrs_pre, i as int, jj));
                            let k = choose|k: int|
                                0 <= k < i && (#[trigger] reach_from(
                                    dst_before,
                                    (ptrs_pre[k]).0 as int,
                                ).contains(jj));
                            assert(ptrs_now[k] == ptrs_pre[k]);
                            lemma_reach_prefix(dst_before, dst.deep_view(), ptrs_now[k].0 as int);
                            assert(reach_from(dst.deep_view(), (ptrs_now[k]).0 as int).contains(
                                jj,
                            ));
                        } else {
                            assert(ptrs_now[i as int] == pj);
                            assert(reach_from(dst.deep_view(), (ptrs_now[i as int]).0 as int).contains(
                                jj,
                            ));
                        }
                    }
                }
                i = i + 1;
            }
            let ghost dst_dv = dst.deep_view();
            let ghost new_ptrs = ptrs@;
            dst.push(Value::LambdaVal(f, ptrs));
            let idx = dst.len() - 1;
            proof {
                assert(dst.deep_view() =~= dst_dv.push(SpecValue::Lambda(f, new_ptrs)));
                assert(idx as int == dst_dv.len());
                crate::seqs::lemma_prefix_push(dst_dv, SpecValue::Lambda(f, new_ptrs));
                crate::seqs::lemma_prefix_trans(base_dst, dst_dv, dst.deep_view());
            }
            let ghost src_mid = src@;
            src.set(p_usize, Value::ThwartPtr(idx));
            ptr.0 = idx;
            proof {
                let dnew = dst.deep_view();
                assert(heap_wf(dnew)) by {
                    assert forall|k: int| 0 <= k < dnew.len() implies val_wf(
                        #[trigger] dnew[k],
                        k,
                    ) by {
                        if k < dst_dv.len() {
                            assert(dnew[k] == dst_dv[k]);
                        } else {
                            assert(dnew[k] == SpecValue::Lambda(f, new_ptrs));
                            assert(forall|j: int|
                                0 <= j < new_ptrs.len() ==> ((#[trigger] new_ptrs[j]).0 as int)
                                    < dst_dv.len());
                        }
                    }
                }
                assert(tree_of(dnew, idx as int) == tree_of(src0, pre)) by {
                    lemma_trees_pointwise(dnew, new_ptrs, idx as int);
                    lemma_trees_pointwise(src0, ps0, pre);
                    assert forall|j: int|
                        0 <= j < new_ptrs.len() implies trees_of(dnew, new_ptrs, idx as int)[j]
                        == trees_of(src0, ps0, pre)[j] by {
                        lemma_tree_prefix(dst_dv, dnew, new_ptrs[j].0 as int);
                    }
                    assert(trees_of(dnew, new_ptrs, idx as int) =~= trees_of(src0, ps0, pre));
                    assert(src0[pre] == SpecValue::Lambda(f, ps0));
                }
                assert(thwart_inv(src0, src@, dnew)) by {
                    assert forall|k: int|
                        0 <= k < src@.len() implies (#[trigger] src@[k]) == src0[k] || (
                    src@[k] matches SpecValue::Thwart(j) && 0 <= (j as int) < dnew.len()
                        && tree_of(dnew, j as int) == tree_of(src0, k)) by {
                        if k == pre {
                            assert(src@[k] == SpecValue::Thwart(idx));
                        } else {
                            assert(src@[k] == src_mid[k]);
                            if !(src@[k] == src0[k]) {
                                if let SpecValue::Thwart(j) = src_mid[k] {
                                    lemma_tree_prefix(dst_dv, dnew, j as int);
                                }
                            }
                        }
                    }
                }
                broadcast use vstd::set::group_set_axioms;

                assert(ps0.take(ps0.len() as int) =~= ps0);
                assert(thwart_set(src_mid) == thwart_set(src_entry).union(
                    reach_many(src0, ps0, pre),
                ));
                assert(!(src0[pre] is Thwart));
                assert(!thwart_set(src_mid).contains(pre));
                assert(thwart_set(src@) =~= thwart_set(src_mid).insert(pre));
                assert(reach_from(src0, pre) == reach_many(src0, ps0, pre).insert(pre));
                assert(thwart_set(src@) =~= thwart_set(src_entry).union(reach_from(src0, pre)));
                assert(thwart_set(src@).len() == thwart_set(src_mid).len() + 1);
                assert(reach_many(src0, ps0, pre).subset_of(thwart_set(src_mid)));
                assert forall|k2: int| #[trigger]
                    thwart_set(src@).contains(k2) implies reach_from(src0, k2).subset_of(
                    thwart_set(src@),
                ) by {
                    if k2 != pre {
                        assert(thwart_set(src_mid).contains(k2));
                        assert(reach_from(src0, k2).subset_of(thwart_set(src_mid)));
                    }
                }
                assert(dnew[idx as int] == SpecValue::Lambda(f, new_ptrs));
                assert(reach_from(dnew, idx as int) == reach_many(dnew, new_ptrs, idx as int).insert(
                    idx as int,
                ));
                assert forall|j2: int|
                    base_dst.len() <= j2 < dnew.len() implies #[trigger] reach_from(
                    dnew,
                    idx as int,
                ).contains(j2) by {
                    if j2 != idx as int {
                        assert(covered(dst_dv, new_ptrs, ps0.len() as int, j2));
                        let k = choose|k: int|
                            0 <= k < ps0.len() && (#[trigger] reach_from(
                                dst_dv,
                                (new_ptrs[k]).0 as int,
                            ).contains(j2));
                        lemma_reach_prefix(dst_dv, dnew, new_ptrs[k].0 as int);
                        lemma_reach_many_member(dnew, new_ptrs, idx as int, k);
                    }
                }
            }
        },
        other => {
            proof {
                assert(src@[pre] == src0[pre]);
            }
            let ghost dst_dv = dst.deep_view();
            let ghost o_dv = other.deep_view();
            dst.push(other);
            let idx = dst.len() - 1;
            proof {
                assert(dst.deep_view() =~= dst_dv.push(o_dv));
                crate::seqs::lemma_prefix_push(dst_dv, o_dv);
            }
            let ghost src_mid = src@;
            src.set(p_usize, Value::ThwartPtr(idx));
            ptr.0 = idx;
            proof {
                let dnew = dst.deep_view();
                assert(heap_wf(dnew)) by {
                    assert forall|k: int| 0 <= k < dnew.len() implies val_wf(
                        #[trigger] dnew[k],
                        k,
                    ) by {
                        if k < dst_dv.len() {
                            assert(dnew[k] == dst_dv[k]);
                        }
                    }
                }
                assert(tree_of(dnew, idx as int) == tree_of(src0, pre));
                assert(thwart_inv(src0, src@, dnew)) by {
                    assert forall|k: int|
                        0 <= k < src@.len() implies (#[trigger] src@[k]) == src0[k] || (
                    src@[k] matches SpecValue::Thwart(j) && 0 <= (j as int) < dnew.len()
                        && tree_of(dnew, j as int) == tree_of(src0, k)) by {
                        if k == pre {
                            assert(src@[k] == SpecValue::Thwart(idx));
                        } else {
                            assert(src@[k] == src_mid[k]);
                            if !(src@[k] == src0[k]) {
                                if let SpecValue::Thwart(j) = src_mid[k] {
                                    lemma_tree_prefix(dst_dv, dnew, j as int);
                                }
                            }
                        }
                    }
                }
                broadcast use vstd::set::group_set_axioms;

                assert(!(src0[pre] is Thwart));
                assert(!thwart_set(src_mid).contains(pre));
                assert(thwart_set(src@) =~= thwart_set(src_mid).insert(pre));
                assert(reach_from(src0, pre) =~= Set::<int>::empty().insert(pre));
                assert(thwart_set(src@) =~= thwart_set(src_mid).union(reach_from(src0, pre)));
                assert(thwart_set(src@).len() == thwart_set(src_mid).len() + 1);
                assert forall|k: int| #[trigger]
                    thwart_set(src@).contains(k) implies reach_from(src0, k).subset_of(
                    thwart_set(src@),
                ) by {
                    if k == pre {
                        assert(reach_from(src0, pre) =~= Set::<int>::empty().insert(pre));
                    } else {
                        assert(thwart_set(src_mid).contains(k));
                        assert(reach_from(src0, k).subset_of(thwart_set(src_mid)));
                    }
                }
                assert(reach_from(dnew, idx as int) == Set::<int>::empty().insert(idx as int));
                assert forall|j2: int|
                    dst_dv.len() <= j2 < dnew.len() implies #[trigger] reach_from(
                    dnew,
                    idx as int,
                ).contains(j2) by {
                    assert(j2 == idx as int);
                }
            }
        },
    }
}

/// The heap indices a pointer reaches: the cell itself and, through a
/// variant's or a closure's fields, everything below it.
pub open spec fn reach_from(h: Seq<SpecValue>, p: int) -> Set<int>
    decreases p + 1, 0int,
{
    if 0 <= p < h.len() {
        match h[p] {
            SpecValue::Variant(c, ps) => reach_many(h, ps, p).insert(p),
            SpecValue::Lambda(f, ps) => reach_many(h, ps, p).insert(p),
            _ => set![p],
        }
    } else {
        Set::empty()
    }
}

/// The indices a run of interior pointers reaches, all below `bound`.
pub open spec fn reach_many(h: Seq<SpecValue>, ps: Seq<Ptr>, bound: int) -> Set<int>
    decreases bound, ps.len() + 1,
{
    if ps.len() == 0 {
        Set::empty()
    } else {
        let head = if 0 <= (ps[0].0 as int) < bound {
            reach_from(h, ps[0].0 as int)
        } else {
            Set::<int>::empty()
        };
        head.union(reach_many(h, ps.drop_first(), bound))
    }
}

/// Reachable indices are heap indices at most `p`, so every reach set is
/// finite.
pub proof fn lemma_reach_range(h: Seq<SpecValue>, p: int)
    ensures
        reach_from(h, p).subset_of(vstd::set_lib::set_int_range(0, h.len() as int)),
        reach_from(h, p).finite(),
        0 <= p < h.len() ==> reach_from(h, p).contains(p),
    decreases p + 1, 0int,
{
    vstd::set_lib::lemma_int_range(0, h.len() as int);
    if 0 <= p < h.len() {
        match h[p] {
            SpecValue::Variant(c, ps) => {
                lemma_reach_many_range(h, ps, p);
            },
            SpecValue::Lambda(f, ps) => {
                lemma_reach_many_range(h, ps, p);
            },
            _ => {},
        }
    }
    vstd::set_lib::lemma_set_subset_finite(
        vstd::set_lib::set_int_range(0, h.len() as int),
        reach_from(h, p),
    );
}

pub proof fn lemma_reach_many_range(h: Seq<SpecValue>, ps: Seq<Ptr>, bound: int)
    ensures
        reach_many(h, ps, bound).subset_of(vstd::set_lib::set_int_range(0, h.len() as int)),
        reach_many(h, ps, bound).finite(),
    decreases bound, ps.len() + 1,
{
    vstd::set_lib::lemma_int_range(0, h.len() as int);
    if ps.len() > 0 {
        if 0 <= (ps[0].0 as int) < bound {
            lemma_reach_range(h, ps[0].0 as int);
        }
        lemma_reach_many_range(h, ps.drop_first(), bound);
    }
    vstd::set_lib::lemma_set_subset_finite(
        vstd::set_lib::set_int_range(0, h.len() as int),
        reach_many(h, ps, bound),
    );
}

/// Extending a heap does not change the reach of its existing cells.
pub proof fn lemma_reach_prefix(h1: Seq<SpecValue>, h2: Seq<SpecValue>, p: int)
    requires
        h1.is_prefix_of(h2),
        0 <= p < h1.len(),
    ensures
        reach_from(h2, p) == reach_from(h1, p),
    decreases p + 1, 0int,
{
    assert(h2[p] == h1[p]);
    match h1[p] {
        SpecValue::Variant(c, ps) => {
            lemma_reach_many_prefix(h1, h2, ps, p);
        },
        SpecValue::Lambda(f, ps) => {
            lemma_reach_many_prefix(h1, h2, ps, p);
        },
        _ => {},
    }
}

pub proof fn lemma_reach_many_prefix(
    h1: Seq<SpecValue>,
    h2: Seq<SpecValue>,
    ps: Seq<Ptr>,
    bound: int,
)
    requires
        h1.is_prefix_of(h2),
        0 <= bound <= h1.len(),
    ensures
        reach_many(h2, ps, bound) == reach_many(h1, ps, bound),
    decreases bound, ps.len() + 1,
{
    if ps.len() > 0 {
        if 0 <= (ps[0].0 as int) < bound {
            lemma_reach_prefix(h1, h2, ps[0].0 as int);
        }
        lemma_reach_many_prefix(h1, h2, ps.drop_first(), bound);
    }
}

/// Reachability is transitive: whatever a reachable cell reaches is
/// reachable.
pub proof fn lemma_reach_trans(h: Seq<SpecValue>, p: int, q: int)
    requires
        reach_from(h, p).contains(q),
    ensures
        reach_from(h, q).subset_of(reach_from(h, p)),
    decreases p + 1, 0int,
{
    if 0 <= p < h.len() {
        if q != p {
            match h[p] {
                SpecValue::Variant(c, ps) => {
                    lemma_reach_many_trans(h, ps, p, q);
                },
                SpecValue::Lambda(f, ps) => {
                    lemma_reach_many_trans(h, ps, p, q);
                },
                _ => {},
            }
        }
    }
}

pub proof fn lemma_reach_many_trans(h: Seq<SpecValue>, ps: Seq<Ptr>, bound: int, q: int)
    requires
        reach_many(h, ps, bound).contains(q),
    ensures
        reach_from(h, q).subset_of(reach_many(h, ps, bound)),
    decreases bound, ps.len() + 1,
{
    if ps.len() > 0 {
        let head = if 0 <= (ps[0].0 as int) < bound {
            reach_from(h, ps[0].0 as int)
        } else {
            Set::<int>::empty()
        };
        if head.contains(q) {
            lemma_reach_trans(h, ps[0].0 as int, q);
        } else {
            lemma_reach_many_trans(h, ps.drop_first(), bound, q);
        }
    }
}

/// Appending one pointer to a run extends its reach by that pointer's.
pub proof fn lemma_reach_many_snoc(h: Seq<SpecValue>, ps: Seq<Ptr>, x: Ptr, bound: int)
    ensures
        reach_many(h, ps.push(x), bound) == reach_many(h, ps, bound).union(
            if 0 <= (x.0 as int) < bound {
                reach_from(h, x.0 as int)
            } else {
                Set::<int>::empty()
            },
        ),
    decreases ps.len(),
{
    let tailset = if 0 <= (x.0 as int) < bound {
        reach_from(h, x.0 as int)
    } else {
        Set::<int>::empty()
    };
    if ps.len() == 0 {
        assert(ps.push(x).drop_first() =~= Seq::<Ptr>::empty());
        assert(ps.push(x)[0] == x);
        assert(reach_many(h, Seq::<Ptr>::empty(), bound) == Set::<int>::empty());
        assert(reach_many(h, ps, bound) == Set::<int>::empty());
        assert(reach_many(h, ps.push(x), bound) =~= reach_many(h, ps, bound).union(tailset));
    } else {
        assert(ps.push(x).drop_first() =~= ps.drop_first().push(x));
        assert(ps.push(x)[0] == ps[0]);
        lemma_reach_many_snoc(h, ps.drop_first(), x, bound);
        assert(reach_many(h, ps.push(x), bound) =~= reach_many(h, ps, bound).union(tailset));
    }
}

/// The cells of a source arena that already hold forwarding pointers.
pub open spec fn thwart_set(h: Seq<SpecValue>) -> Set<int> {
    Set::new(|i: int| 0 <= i < h.len() && h[i] is Thwart)
}

/// Some already-rewritten pointer among the first `upto` reaches `jj`.
pub open spec fn covered(dst: Seq<SpecValue>, ptrs: Seq<Ptr>, upto: int, jj: int) -> bool {
    exists|k: int|
        0 <= k < upto && (#[trigger] reach_from(dst, (ptrs[k]).0 as int).contains(jj))
}

/// The copy accounting mid-compaction: the target arena holds exactly one
/// cell per forwarded source cell, and the forwarded cells are closed
/// under reachability in the pristine source.
pub open spec fn count_inv(src0: Seq<SpecValue>, src: Seq<SpecValue>, dst: Seq<SpecValue>) -> bool {
    &&& thwart_set(src).finite()
    &&& thwart_set(src).len() == dst.len()
    &&& forall|i: int|
        #[trigger] thwart_set(src).contains(i) ==> reach_from(src0, i).subset_of(thwart_set(src))
}

/// The indices a run of optional pointers (register slots) reaches.
pub open spec fn reach_opts(h: Seq<SpecValue>, ps: Seq<Option<Ptr>>, bound: int) -> Set<int>
    decreases bound, ps.len() + 1,
{
    if ps.len() == 0 {
        Set::empty()
    } else {
        let head = match ps[0] {
            Some(p) => if 0 <= (p.0 as int) < bound {
                reach_from(h, p.0 as int)
            } else {
                Set::<int>::empty()
            },
            None => Set::<int>::empty(),
        };
        head.union(reach_opts(h, ps.drop_first(), bound))
    }
}

pub proof fn lemma_reach_opts_range(h: Seq<SpecValue>, ps: Seq<Option<Ptr>>, bound: int)
    ensures
        reach_opts(h, ps, bound).subset_of(vstd::set_lib::set_int_range(0, h.len() as int)),
        reach_opts(h, ps, bound).finite(),
    decreases bound, ps.len() + 1,
{
    vstd::set_lib::lemma_int_range(0, h.len() as int);
    if ps.len() > 0 {
        match ps[0] {
            Some(p) => {
                if 0 <= (p.0 as int) < bound {
                    lemma_reach_range(h, p.0 as int);
                }
            },
            None => {},
        }
        lemma_reach_opts_range(h, ps.drop_first(), bound);
    }
    vstd::set_lib::lemma_set_subset_finite(
        vstd::set_lib::set_int_range(0, h.len() as int),
        reach_opts(h, ps, bound),
    );
}

/// Appending one slot to a run extends its reach by that slot's.
pub proof fn lemma_reach_opts_snoc(
    h: Seq<SpecValue>,
    ps: Seq<Option<Ptr>>,
    x: Option<Ptr>,
    bound: int,
)
    ensures
        reach_opts(h, ps.push(x), bound) == reach_opts(h, ps, bound).union(
            match x {
                Some(p) => if 0 <= (p.0 as int) < bound {
                    reach_from(h, p.0 as int)
                } else {
                    Set::<int>::empty()
                },
                None => Set::<int>::empty(),
            },
        ),
    decreases ps.len(),
{
    let tailset = match x {
        Some(p) => if 0 <= (p.0 as int) < bound {
            reach_from(h, p.0 as int)
        } else {
            Set::<int>::empty()
        },
        None => Set::<int>::empty(),
    };
    if ps.len() == 0 {
        assert(ps.push(x).drop_first() =~= Seq::<Option<Ptr>>::empty());
        assert(ps.push(x)[0] == x);
        assert(reach_opts(h, Seq::<Option<Ptr>>::empty(), bound) == Set::<int>::empty());
        assert(reach_opts(h, ps, bound) == Set::<int>::empty());
        assert(reach_opts(h, ps.push(x), bound) =~= reach_opts(h, ps, bound).union(tailset));
    } else {
        assert(ps.push(x).drop_first() =~= ps.drop_first().push(x));
        assert(ps.push(x)[0] == ps[0]);
        lemma_reach_opts_snoc(h, ps.drop_first(), x, bound);
        assert(reach_opts(h, ps.push(x), bound) =~= reach_opts(h, ps, bound).union(tailset));
    }
}

/// Each in-guard pointer of a run contributes its whole reach.
pub proof fn lemma_reach_many_member(h: Seq<SpecValue>, ps: Seq<Ptr>, bound: int, k: int)
    requires
        0 <= k < ps.len(),
        0 <= (ps[k].0 as int) < bound,
    ensures
        reach_from(h, ps[k].0 as int).subset_of(reach_many(h, ps, bound)),
    decreases ps.len(),
{
    if k > 0 {
        assert(ps.drop_first()[k - 1] == ps[k]);
        lemma_reach_many_member(h, ps.drop_first(), bound, k - 1);
    }
}

/// Growing a heap (and the guard with it) keeps the reach of a run whose
/// pointers already land inside the smaller heap.
pub proof fn lemma_reach_many_grow(h1: Seq<SpecValue>, h2: Seq<SpecValue>, ps: Seq<Ptr>)
    requires
        h1.is_prefix_of(h2),
        forall|k: int| 0 <= k < ps.len() ==> ((#[trigger] ps[k]).0 as int) < h1.len(),
    ensures
        reach_many(h2, ps, h2.len() as int) == reach_many(h1, ps, h1.len() as int),
    decreases ps.len(),
{
    if ps.len() > 0 {
        assert((ps[0].0 as int) < h1.len());
        lemma_reach_prefix(h1, h2, ps[0].0 as int);
        assert(forall|k: int|
            0 <= k < ps.drop_first().len() ==> ((#[trigger] ps.drop_first()[k]).0 as int)
                < h1.len());
        lemma_reach_many_grow(h1, h2, ps.drop_first());
    }
}

/// The same, for register slots.
pub proof fn lemma_reach_opts_grow(h1: Seq<SpecValue>, h2: Seq<SpecValue>, ps: Seq<Option<Ptr>>)
    requires
        h1.is_prefix_of(h2),
        forall|k: int|
            0 <= k < ps.len() ==> ((#[trigger] ps[k]) matches Some(p) ==> (p.0 as int) < h1.len()),
    ensures
        reach_opts(h2, ps, h2.len() as int) == reach_opts(h1, ps, h1.len() as int),
    decreases ps.len(),
{
    if ps.len() > 0 {
        match ps[0] {
            Some(p) => {
                assert((p.0 as int) < h1.len());
                lemma_reach_prefix(h1, h2, p.0 as int);
            },
            None => {},
        }
        assert(forall|k: int|
            0 <= k < ps.drop_first().len() ==> ((#[trigger] ps.drop_first()[k]) matches Some(p)
                ==> (p.0 as int) < h1.len()));
        lemma_reach_opts_grow(h1, h2, ps.drop_first());
    }
}

} // verus!
