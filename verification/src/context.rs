//! A standalone constructor-numbering pass: walks every module's ADTs and
//! gives each constructor a dense identifier and its field count, keyed by
//! module name, datatype name and constructor name.

use vstd::prelude::*;
use crate::bc;
use crate::bc::SpecModule;
use crate::program::{adt_ctors, ctor_chunk, module_ctors};

verus! {

/// What the numbering records of one constructor: its dense identifier and
/// how many fields it has.
#[derive(Clone, Copy, Debug, PartialEq, Eq, Structural)]
pub struct ADTData {
    pub id: usize,
    pub elements: usize,
}

/// Constructor data keyed by module name, then datatype name, then
/// constructor name, in the modules' own order.
pub struct Context {
    pub adts: Vec<(Vec<String>, Vec<(String, Vec<(String, ADTData)>)>)>,
}

/// How many constructors the first `t` modules hold.
pub open spec fn ctors_before(ms: Seq<SpecModule>, t: int) -> int
    decreases t,
{
    if t <= 0 {
        0
    } else {
        ctors_before(ms, t - 1) + module_ctors(ms[t - 1], 0).len()
    }
}

/// The identifier assigned to variant `v` of datatype `a` of module `t`.
pub open spec fn ctor_id(ms: Seq<SpecModule>, t: int, a: int, v: int) -> int {
    ctors_before(ms, t) + ctor_chunk(ms[t].adts, 0, a).len() + v
}

pub proof fn lemma_ctor_chunk_len_monotone(
    adts: Seq<(Seq<char>, Seq<crate::bc::SpecVariant>)>,
    base: int,
    a1: int,
    a2: int,
)
    requires
        0 <= a1 <= a2,
    ensures
        ctor_chunk(adts, base, a1).len() <= ctor_chunk(adts, base, a2).len(),
    decreases a2 - a1,
{
    if a1 < a2 {
        lemma_ctor_chunk_len_monotone(adts, base, a1, a2 - 1);
    }
}

pub proof fn lemma_ctors_before_monotone(ms: Seq<SpecModule>, t1: int, t2: int)
    requires
        0 <= t1 <= t2,
    ensures
        ctors_before(ms, t1) <= ctors_before(ms, t2),
    decreases t2 - t1,
{
    if t1 < t2 {
        lemma_ctors_before_monotone(ms, t1, t2 - 1);
    }
}

/// Each identifier lies below the count of all constructors: the assigned
/// identifiers of all variants are exactly `0 .. N-1` in traversal order.
pub proof fn lemma_ctor_id_in_range(ms: Seq<SpecModule>, t: int, a: int, v: int)
    requires
        0 <= t < ms.len(),
        0 <= a < ms[t].adts.len(),
        0 <= v < ms[t].adts[a].1.len(),
    ensures
        0 <= ctor_id(ms, t, a, v) < ctors_before(ms, ms.len() as int),
{
    lemma_ctors_before_monotone(ms, 0, t);
    lemma_ctor_chunk_len_monotone(ms[t].adts, 0, 0, a);
    assert(ctor_chunk(ms[t].adts, 0, a + 1) == ctor_chunk(ms[t].adts, 0, a) + adt_ctors(
        ms[t].adts[a],
        a,
    ));
    assert(adt_ctors(ms[t].adts[a], a).len() == ms[t].adts[a].1.len());
    lemma_ctor_chunk_len_monotone(ms[t].adts, 0, a + 1, ms[t].adts.len() as int);
    assert(ctors_before(ms, t + 1) == ctors_before(ms, t) + module_ctors(ms[t], 0).len());
    lemma_ctors_before_monotone(ms, t + 1, ms.len() as int);
}

/// Number every constructor of every module, in supplied-module order, ADT
/// listed order, and variant listed order: identifiers are dense, starting
/// at zero, and each entry carries the variant's field count.
pub fn build_context(modules: &Vec<bc::Module>) -> (r: Context)
    requires
        ctors_before(modules.deep_view(), modules.deep_view().len() as int) <= usize::MAX,
    ensures
        ({
            let ms = modules.deep_view();
            &&& r.adts@.len() == ms.len()
            &&& forall|t: int|
                0 <= t < ms.len() ==> (#[trigger] r.adts@[t]).0.deep_view() == ms[t].name
                    && r.adts@[t].1@.len() == ms[t].adts.len()
            &&& forall|t: int, a: int|
                0 <= t < ms.len() && 0 <= a < ms[t].adts.len() ==> (
                #[trigger] r.adts@[t].1@[a]).0@ == ms[t].adts[a].0 && r.adts@[t].1@[a].1@.len()
                    == ms[t].adts[a].1.len()
            &&& forall|t: int, a: int, v: int|
                0 <= t < ms.len() && 0 <= a < ms[t].adts.len() && 0 <= v < ms[t].adts[a].1.len()
                    ==> (#[trigger] r.adts@[t].1@[a].1@[v]).0@ == ms[t].adts[a].1[v].name
                    && r.adts@[t].1@[a].1@[v].1.id == ctor_id(ms, t, a, v)
                    && r.adts@[t].1@[a].1@[v].1.elements == ms[t].adts[a].1[v].elements.len()
        }),
{
    let ghost ms = modules.deep_view();
    let mut next: usize = 0;
    let mut adts: Vec<(Vec<String>, Vec<(String, Vec<(String, ADTData)>)>)> = Vec::new();
    let mut t: usize = 0;
    while t < modules.len()
        invariant
            t <= ms.len(),
            ms == modules.deep_view(),
            ms.len() == modules@.len(),
            ctors_before(ms, ms.len() as int) <= usize::MAX,
            next == ctors_before(ms, t as int),
            adts@.len() == t,
            forall|b: int|
                0 <= b < t ==> (#[trigger] adts@[b]).0.deep_view() == ms[b].name
                    && adts@[b].1@.len() == ms[b].adts.len(),
            forall|b: int, a: int|
                0 <= b < t && 0 <= a < ms[b].adts.len() ==> (#[trigger] adts@[b].1@[a]).0@ == ms[
                    b
                ].adts[a].0 && adts@[b].1@[a].1@.len() == ms[b].adts[a].1.len(),
            forall|b: int, a: int, v: int|
                0 <= b < t && 0 <= a < ms[b].adts.len() && 0 <= v < ms[b].adts[a].1.len() ==> (
                #[trigger] adts@[b].1@[a].1@[v]).0@ == ms[b].adts[a].1[v].name && adts@[b].1@[
                    a
                ].1@[v].1.id == ctor_id(ms, b, a, v) && adts@[b].1@[a].1@[v].1.elements == ms[
                    b
                ].adts[a].1[v].elements.len(),
        decreases ms.len() - t,
    {
        let module = &modules[t];
        proof {
            assert(ms[t as int] == modules@[t as int].deep_view());
        }
        let mut module_adts: Vec<(String, Vec<(String, ADTData)>)> = Vec::new();
        let mut a: usize = 0;
        while a < module.adts.len()
            invariant
                a <= module.adts@.len(),
                t < ms.len(),
                ms == modules.deep_view(),
                module.deep_view() == ms[t as int],
                module.adts@.len() == ms[t as int].adts.len(),
                ctors_before(ms, ms.len() as int) <= usize::MAX,
                next == ctors_before(ms, t as int) + ctor_chunk(
                    ms[t as int].adts,
                    0,
                    a as int,
                ).len(),
                module_adts@.len() == a,
                forall|x: int|
                    0 <= x < a ==> (#[trigger] module_adts@[x]).0@ == ms[t as int].adts[x].0
                        && module_adts@[x].1@.len() == ms[t as int].adts[x].1.len(),
                forall|x: int, v: int|
                    0 <= x < a && 0 <= v < ms[t as int].adts[x].1.len() ==> (
                    #[trigger] module_adts@[x].1@[v]).0@ == ms[t as int].adts[x].1[v].name
                        && module_adts@[x].1@[v].1.id == ctor_id(ms, t as int, x, v)
                        && module_adts@[x].1@[v].1.elements == ms[t as int].adts[x].1[
                        v
                    ].elements.len(),
            decreases module.adts@.len() - a,
        {
            proof {
                assert(ms[t as int].adts[a as int] == module.adts@[a as int].deep_view());
                assert(ms[t as int].adts[a as int].1 == module.adts@[a as int].1.deep_view());
            }
            let variants = &module.adts[a].1;
            let mut ctors: Vec<(String, ADTData)> = Vec::new();
            let mut v: usize = 0;
            while v < variants.len()
                invariant
                    v <= variants@.len(),
                    t < ms.len(),
                    a < ms[t as int].adts.len(),
                    ms == modules.deep_view(),
                    variants.deep_view() == ms[t as int].adts[a as int].1,
                    variants@.len() == ms[t as int].adts[a as int].1.len(),
                    ctors_before(ms, ms.len() as int) <= usize::MAX,
                    next == ctors_before(ms, t as int) + ctor_chunk(
                        ms[t as int].adts,
                        0,
                        a as int,
                    ).len() + v,
                    ctors@.len() == v,
                    forall|w: int|
                        0 <= w < v ==> (#[trigger] ctors@[w]).0@ == ms[t as int].adts[a as int].1[
                            w
                        ].name && ctors@[w].1.id == ctor_id(ms, t as int, a as int, w) && ctors@[
                            w
                        ].1.elements == ms[t as int].adts[a as int].1[w].elements.len(),
                decreases variants@.len() - v,
            {
                proof {
                    assert(ms[t as int].adts[a as int].1[v as int] == variants@[
                        v as int].deep_view());
                    crate::context::lemma_ctor_id_in_range(ms, t as int, a as int, v as int);
                }
                let data = ADTData { id: next, elements: variants[v].elements.len() };
                ctors.push((crate::lex::clone_string(&variants[v].name), data));
                next = next + 1;
                v = v + 1;
            }
            module_adts.push((crate::lex::clone_string(&module.adts[a].0), ctors));
            proof {
                assert(ctor_chunk(ms[t as int].adts, 0, a + 1) == ctor_chunk(
                    ms[t as int].adts,
                    0,
                    a as int,
                ) + adt_ctors(ms[t as int].adts[a as int], a as int));
                assert(adt_ctors(ms[t as int].adts[a as int], a as int).len() == ms[t as int].adts[
                    a as int
                ].1.len());
                assert(module_adts@[a as int].0@ == ms[t as int].adts[a as int].0);
            }
            a = a + 1;
        }
        adts.push((crate::lex::clone_names(&module.name), module_adts));
        proof {
            assert(ctor_chunk(ms[t as int].adts, 0, ms[t as int].adts.len() as int)
                == module_ctors(ms[t as int], 0));
            assert(ctors_before(ms, t + 1) == ctors_before(ms, t as int) + module_ctors(
                ms[t as int],
                0,
            ).len());
            assert(adts@[t as int].0.deep_view() == ms[t as int].name);
        }
        t = t + 1;
    }
    Context { adts }
}

} // verus!
