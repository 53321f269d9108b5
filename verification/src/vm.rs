//! The interpreter: a stack of frames driven over the linked program, with
//! all runtime values in the arena heap, and compaction over the frames'
//! pointers as the root set.

use vstd::prelude::*;
use crate::heap::{compact_hit, heap_wf, reach_from, reach_many, reach_opts, thwart_inv, tree_of,
    GC, Ptr,
    SpecValue, Value};
use crate::program::{context_tables_wf, module_called_spec, module_fn_called_spec, Context,
    ConstructorIndex, FunctionIndex, Program, SpecContext, SpecInstr};

verus! {

/// One activation of one function: its next instruction, its write-in-order
/// locals, its sparse registers, and its operand stack.
#[derive(Debug)]
pub struct Frame {
    pub fn_idx: FunctionIndex,
    pub ip: usize,
    pub locals: Vec<Ptr>,
    pub registers: Vec<Option<Ptr>>,
    pub stack: Vec<Ptr>,
}

/// Mathematical view of a frame.
pub struct SpecFrame {
    pub fn_idx: FunctionIndex,
    pub ip: usize,
    pub locals: Seq<Ptr>,
    pub registers: Seq<Option<Ptr>>,
    pub stack: Seq<Ptr>,
}

impl DeepView for Frame {
    type V = SpecFrame;

    open spec fn deep_view(&self) -> SpecFrame {
        SpecFrame {
            fn_idx: self.fn_idx,
            ip: self.ip,
            locals: self.locals@,
            registers: self.registers@,
            stack: self.stack@,
        }
    }
}

impl Frame {
    /// A fresh frame for one function, about to run its first instruction.
    pub fn new(fn_idx: FunctionIndex) -> (r: Frame)
        ensures
            r.deep_view().fn_idx == fn_idx,
            r.deep_view().ip == 0,
            r.deep_view().locals == Seq::<Ptr>::empty(),
            r.deep_view().registers == Seq::<Option<Ptr>>::empty(),
            r.deep_view().stack == Seq::<Ptr>::empty(),
    {
        Frame { fn_idx, ip: 0, locals: Vec::new(), registers: Vec::new(), stack: Vec::new() }
    }
}

/// Every pointer the frame holds lands inside a heap of length `hlen`.
pub open spec fn frame_ptrs_ok(f: SpecFrame, hlen: int) -> bool {
    &&& forall|i: int| 0 <= i < f.locals.len() ==> ((#[trigger] f.locals[i]).0 as int) < hlen
    &&& forall|i: int|
        0 <= i < f.registers.len() ==> ((#[trigger] f.registers[i]) matches Some(p) ==> (
        p.0 as int) < hlen)
    &&& forall|i: int| 0 <= i < f.stack.len() ==> ((#[trigger] f.stack[i]).0 as int) < hlen
}

/// The new frame shows, in the new heap, exactly the trees the old frame
/// showed in the old heap: same function, same position, every local,
/// filled register and stack slot structurally unchanged.
pub open spec fn frame_trees_match(
    h_old: Seq<SpecValue>,
    f_old: SpecFrame,
    h_new: Seq<SpecValue>,
    f_new: SpecFrame,
) -> bool {
    &&& f_new.fn_idx == f_old.fn_idx
    &&& f_new.ip == f_old.ip
    &&& f_new.locals.len() == f_old.locals.len()
    &&& f_new.registers.len() == f_old.registers.len()
    &&& f_new.stack.len() == f_old.stack.len()
    &&& forall|i: int|
        0 <= i < f_old.locals.len() ==> tree_of(h_new, (#[trigger] f_new.locals[i]).0 as int)
            == tree_of(h_old, f_old.locals[i].0 as int)
    &&& forall|i: int|
        0 <= i < f_old.registers.len() ==> ((#[trigger] f_old.registers[i]) is Some
            == f_new.registers[i] is Some)
    &&& forall|i: int|
        0 <= i < f_old.registers.len() ==> ((#[trigger] f_old.registers[i]) matches Some(p_old)
            ==> (f_new.registers[i] matches Some(p_new) && tree_of(h_new, p_new.0 as int)
            == tree_of(h_old, p_old.0 as int)))
    &&& forall|i: int|
        0 <= i < f_old.stack.len() ==> tree_of(h_new, (#[trigger] f_new.stack[i]).0 as int)
            == tree_of(h_old, f_old.stack[i].0 as int)
}

/// Compact the heap over the frames' pointers as the root set: every live
/// pointer in locals, filled registers and operand stacks is forwarded into
/// a fresh arena and rewritten. Every root denotes, in the new heap, the
/// tree it denoted in the old heap, and the new heap holds no forwarding
/// cells.
#[verifier::rlimit(100)]
pub fn compact(heap: GC, frames: &mut Vec<Frame>) -> (r: GC)
    requires
        heap_wf(heap@),
        forall|i: int|
            0 <= i < old(frames)@.len() ==> frame_ptrs_ok(
                (#[trigger] old(frames)@[i]).deep_view(),
                heap@.len() as int,
            ),
    ensures
        heap_wf(r@),
        final(frames)@.len() == old(frames)@.len(),
        forall|i: int|
            0 <= i < old(frames)@.len() ==> frame_ptrs_ok(
                (#[trigger] final(frames)@[i]).deep_view(),
                r@.len() as int,
            ),
        forall|i: int|
            0 <= i < old(frames)@.len() ==> frame_trees_match(
                heap@,
                (#[trigger] old(frames)@[i]).deep_view(),
                r@,
                final(frames)@[i].deep_view(),
            ),
        r@.len() == roots_reach(heap@, old(frames).deep_view(), old(frames)@.len() as int).len(),
        forall|j: int|
            0 <= j < r@.len() ==> #[trigger] roots_reach(
                r@,
                final(frames).deep_view(),
                final(frames)@.len() as int,
            ).contains(j),
{
    let ghost src0 = heap@;
    let ghost frames0 = frames.deep_view();
    let mut src = heap;
    let mut dst: Vec<Value> = Vec::new();
    proof {
        broadcast use vstd::set::group_set_axioms;

        assert(frames0.len() == frames@.len());
        assert(forall|i: int| 0 <= i < frames0.len() ==> frames0[i] == frames@[i].deep_view());
        assert(heap_wf(dst.deep_view())) by {
            assert(dst.deep_view().len() == 0);
        }
        assert(crate::heap::thwart_set(src@) =~= Set::<int>::empty());
        assert(crate::heap::count_inv(src0, src@, dst.deep_view()));
        assert(roots_reach(src0, frames0, 0) == Set::<int>::empty());
        assert(crate::heap::thwart_set(src@) =~= roots_reach(src0, frames0, 0));
    }
    let mut fi: usize = 0;
    while fi < frames.len()
        invariant
            fi <= frames@.len(),
            frames@.len() == frames0.len(),
            forall|i: int| 0 <= i < frames0.len() ==> frames0[i] == old(frames)@[i].deep_view(),
            thwart_inv(src0, src@, dst.deep_view()),
            crate::heap::count_inv(src0, src@, dst.deep_view()),
            (crate::heap::thwart_set(src@) == roots_reach(src0, frames0, fi as int)),
            forall|jj: int|
                0 <= jj < dst.deep_view().len() ==> #[trigger] roots_reach(
                    dst.deep_view(),
                    frames.deep_view(),
                    fi as int,
                ).contains(jj),
            src@.len() == src0.len(),
            forall|i: int|
                fi <= i < frames0.len() ==> (#[trigger] frames@[i]).deep_view() == frames0[i],
            forall|i: int|
                0 <= i < frames0.len() ==> frame_ptrs_ok(#[trigger] frames0[i], src0.len() as int),
            forall|i: int|
                0 <= i < fi ==> frame_ptrs_ok(
                    (#[trigger] frames@[i]).deep_view(),
                    dst.deep_view().len() as int,
                ),
            forall|i: int|
                0 <= i < fi ==> frame_trees_match(
                    src0,
                    frames0[i],
                    dst.deep_view(),
                    (#[trigger] frames@[i]).deep_view(),
                ),
        decreases frames@.len() - fi,
    {
        let ghost f0 = frames0[fi as int];
        proof {
            assert(frames.deep_view()[fi as int].locals.take(0) =~= Seq::<Ptr>::empty());
            assert(reach_many(
                dst.deep_view(),
                Seq::<Ptr>::empty(),
                dst.deep_view().len() as int,
            ) == Set::<int>::empty());
            assert forall|jj: int|
                0 <= jj < dst.deep_view().len() implies #[trigger] locals_cov(
                dst.deep_view(),
                frames.deep_view(),
                fi as int,
                0,
            ).contains(jj) by {
                assert(roots_reach(dst.deep_view(), frames.deep_view(), fi as int).contains(jj));
            }
            assert(f0.locals.take(0) =~= Seq::<Ptr>::empty());
            assert(reach_many(src0, Seq::<Ptr>::empty(), src0.len() as int) == Set::<int>::empty());
            assert(crate::heap::thwart_set(src@) =~= roots_reach(src0, frames0, fi as int).union(
                reach_many(src0, f0.locals.take(0), src0.len() as int),
            ));
        }
        let nlocals = frames[fi].locals.len();
        let mut j: usize = 0;
        while j < nlocals
            invariant
                j <= f0.locals.len(),
                fi < frames@.len(),
                frames@.len() == frames0.len(),
                nlocals == f0.locals.len(),
                f0 == frames0[fi as int],
                thwart_inv(src0, src@, dst.deep_view()),
                crate::heap::count_inv(src0, src@, dst.deep_view()),
                (crate::heap::thwart_set(src@) == roots_reach(src0, frames0, fi as int).union(
                    reach_many(src0, f0.locals.take(j as int), src0.len() as int),
                )),
                forall|jj: int|
                    0 <= jj < dst.deep_view().len() ==> #[trigger] locals_cov(
                        dst.deep_view(),
                        frames.deep_view(),
                        fi as int,
                        j as int,
                    ).contains(jj),
                src@.len() == src0.len(),
                forall|i: int|
                    0 <= i < frames0.len() ==> frame_ptrs_ok(
                        #[trigger] frames0[i],
                        src0.len() as int,
                    ),
                forall|i: int|
                    fi < i < frames0.len() ==> (#[trigger] frames@[i]).deep_view() == frames0[i],
                frames@[fi as int].deep_view().fn_idx == f0.fn_idx,
                frames@[fi as int].deep_view().ip == f0.ip,
                frames@[fi as int].deep_view().locals.len() == f0.locals.len(),
                frames@[fi as int].deep_view().registers == f0.registers,
                frames@[fi as int].deep_view().stack == f0.stack,
                forall|i: int|
                    j <= i < f0.locals.len() ==> #[trigger] frames@[fi as int].deep_view().locals[i]
                        == f0.locals[i],
                forall|i: int|
                    0 <= i < j ==> ((#[trigger] frames@[fi as int].deep_view().locals[i]).0 as int)
                        < dst.deep_view().len(),
                forall|i: int|
                    0 <= i < j ==> tree_of(
                        dst.deep_view(),
                        (#[trigger] frames@[fi as int].deep_view().locals[i]).0 as int,
                    ) == tree_of(src0, f0.locals[i].0 as int),
                forall|i: int|
                    0 <= i < fi ==> frame_ptrs_ok(
                        (#[trigger] frames@[i]).deep_view(),
                        dst.deep_view().len() as int,
                    ),
                forall|i: int|
                    0 <= i < fi ==> frame_trees_match(
                        src0,
                        frames0[i],
                        dst.deep_view(),
                        (#[trigger] frames@[i]).deep_view(),
                    ),
            decreases f0.locals.len() - j,
        {
            let mut pj = frames[fi].locals[j];
            proof {
                assert(pj == f0.locals[j as int]);
                assert((pj.0 as int) < src0.len());
            }
            let ghost dst_before = dst.deep_view();
            let ghost fr_pre = frames.deep_view();
            compact_hit(&mut src, &mut dst, &mut pj, Ghost(src0));
            frames[fi].locals[j] = pj;
            proof {
                let dnow = dst.deep_view();
                let fr_now = frames.deep_view();
                assert(forall|i2: int| 0 <= i2 < fi ==> #[trigger] fr_pre[i2] == fr_now[i2]);
                lemma_roots_reach_agree(dst_before, fr_pre, fr_now, fi as int);
                lemma_roots_reach_grow(dst_before, dnow, fr_now, fi as int);
                let tpre = fr_pre[fi as int].locals.take(j as int);
                assert(forall|k2: int|
                    0 <= k2 < tpre.len() ==> ((#[trigger] tpre[k2]).0 as int) < dst_before.len());
                crate::heap::lemma_reach_many_grow(dst_before, dnow, tpre);
                assert(fr_now[fi as int].locals.take(j + 1) =~= tpre.push(pj));
                crate::heap::lemma_reach_many_snoc(dnow, tpre, pj, dnow.len() as int);
                assert forall|jj: int|
                    0 <= jj < dnow.len() implies #[trigger] locals_cov(
                    dnow,
                    fr_now,
                    fi as int,
                    j + 1,
                ).contains(jj) by {
                    if jj < dst_before.len() {
                        assert(locals_cov(dst_before, fr_pre, fi as int, j as int).contains(jj));
                    } else {
                        assert(reach_from(dnow, pj.0 as int).contains(jj));
                        assert(0 <= (pj.0 as int) < dnow.len());
                    }
                }
                crate::heap::lemma_reach_many_snoc(
                    src0,
                    f0.locals.take(j as int),
                    f0.locals[j as int],
                    src0.len() as int,
                );
                assert(f0.locals.take(j + 1) =~= f0.locals.take(j as int).push(
                    f0.locals[j as int],
                ));
                assert(0 <= (f0.locals[j as int].0 as int) < src0.len());
                assert(crate::heap::thwart_set(src@) =~= roots_reach(
                    src0,
                    frames0,
                    fi as int,
                ).union(reach_many(src0, f0.locals.take(j + 1), src0.len() as int)));
                lemma_roots_stable(src0, frames0, frames@, dst_before, dst.deep_view(), fi as int);
                assert forall|i: int|
                    0 <= i < j implies tree_of(
                    dst.deep_view(),
                    (#[trigger] frames@[fi as int].deep_view().locals[i]).0 as int,
                ) == tree_of(src0, f0.locals[i].0 as int) by {
                    crate::heap::lemma_tree_prefix(
                        dst_before,
                        dst.deep_view(),
                        frames@[fi as int].deep_view().locals[i].0 as int,
                    );
                }
            }
            j = j + 1;
        }
        proof {
            assert(f0.locals.take(f0.locals.len() as int) =~= f0.locals);
            assert(f0.registers.take(0) =~= Seq::<Option<Ptr>>::empty());
            assert(reach_opts(src0, Seq::<Option<Ptr>>::empty(), src0.len() as int) == Set::<
                int,
            >::empty());
            assert(crate::heap::thwart_set(src@) =~= roots_reach(src0, frames0, fi as int).union(
                reach_many(src0, f0.locals, src0.len() as int),
            ).union(reach_opts(src0, f0.registers.take(0), src0.len() as int)));
            let dnow = dst.deep_view();
            let fr_now = frames.deep_view();
            assert(fr_now[fi as int].locals.take(fr_now[fi as int].locals.len() as int)
                =~= fr_now[fi as int].locals);
            assert(fr_now[fi as int].registers.take(0) =~= Seq::<Option<Ptr>>::empty());
            assert(reach_opts(dnow, Seq::<Option<Ptr>>::empty(), dnow.len() as int) == Set::<
                int,
            >::empty());
            assert forall|jj: int|
                0 <= jj < dnow.len() implies #[trigger] regs_cov(
                dnow,
                fr_now,
                fi as int,
                0,
            ).contains(jj) by {
                assert(locals_cov(dnow, fr_now, fi as int, fr_now[
                    fi as int
                ].locals.len() as int).contains(jj));
            }
        }
        let nregs = frames[fi].registers.len();
        let mut j: usize = 0;
        while j < nregs
            invariant
                j <= f0.registers.len(),
                fi < frames@.len(),
                frames@.len() == frames0.len(),
                nregs == f0.registers.len(),
                f0 == frames0[fi as int],
                thwart_inv(src0, src@, dst.deep_view()),
                crate::heap::count_inv(src0, src@, dst.deep_view()),
                (crate::heap::thwart_set(src@) == roots_reach(src0, frames0, fi as int).union(
                    reach_many(src0, f0.locals, src0.len() as int),
                ).union(reach_opts(src0, f0.registers.take(j as int), src0.len() as int))),
                forall|jj: int|
                    0 <= jj < dst.deep_view().len() ==> #[trigger] regs_cov(
                        dst.deep_view(),
                        frames.deep_view(),
                        fi as int,
                        j as int,
                    ).contains(jj),
                src@.len() == src0.len(),
                forall|i: int|
                    0 <= i < frames0.len() ==> frame_ptrs_ok(
                        #[trigger] frames0[i],
                        src0.len() as int,
                    ),
                forall|i: int|
                    fi < i < frames0.len() ==> (#[trigger] frames@[i]).deep_view() == frames0[i],
                frames@[fi as int].deep_view().fn_idx == f0.fn_idx,
                frames@[fi as int].deep_view().ip == f0.ip,
                frames@[fi as int].deep_view().locals.len() == f0.locals.len(),
                frames@[fi as int].deep_view().registers.len() == f0.registers.len(),
                frames@[fi as int].deep_view().stack == f0.stack,
                forall|i: int|
                    0 <= i < f0.locals.len() ==> ((#[trigger] frames@[
                        fi as int
                    ].deep_view().locals[i]).0 as int) < dst.deep_view().len(),
                forall|i: int|
                    0 <= i < f0.locals.len() ==> tree_of(
                        dst.deep_view(),
                        (#[trigger] frames@[fi as int].deep_view().locals[i]).0 as int,
                    ) == tree_of(src0, f0.locals[i].0 as int),
                forall|i: int|
                    j <= i < f0.registers.len() ==> #[trigger] frames@[
                        fi as int
                    ].deep_view().registers[i] == f0.registers[i],
                forall|i: int|
                    0 <= i < j ==> ((#[trigger] f0.registers[i]) is Some == frames@[
                        fi as int
                    ].deep_view().registers[i] is Some),
                forall|i: int|
                    0 <= i < j ==> ((#[trigger] f0.registers[i]) matches Some(p_old) ==> (frames@[
                        fi as int
                    ].deep_view().registers[i] matches Some(p_new) && (p_new.0 as int)
                        < dst.deep_view().len() && tree_of(dst.deep_view(), p_new.0 as int)
                        == tree_of(src0, p_old.0 as int))),
                forall|i: int|
                    0 <= i < fi ==> frame_ptrs_ok(
                        (#[trigger] frames@[i]).deep_view(),
                        dst.deep_view().len() as int,
                    ),
                forall|i: int|
                    0 <= i < fi ==> frame_trees_match(
                        src0,
                        frames0[i],
                        dst.deep_view(),
                        (#[trigger] frames@[i]).deep_view(),
                    ),
            decreases f0.registers.len() - j,
        {
            let slot = frames[fi].registers[j];
            match slot {
                Some(p) => {
                    let mut pj = p;
                    proof {
                        assert(f0.registers[j as int] == Some(p));
                        assert((pj.0 as int) < src0.len());
                    }
                    let ghost dst_before = dst.deep_view();
                    let ghost fr_pre = frames.deep_view();
                    compact_hit(&mut src, &mut dst, &mut pj, Ghost(src0));
                    frames[fi].registers[j] = Some(pj);
                    proof {
                        let dnow = dst.deep_view();
                        let fr_now = frames.deep_view();
                        assert(forall|i2: int|
                            0 <= i2 < fi ==> #[trigger] fr_pre[i2] == fr_now[i2]);
                        lemma_roots_reach_agree(dst_before, fr_pre, fr_now, fi as int);
                        assert forall|i2: int|
                            0 <= i2 < fi implies frame_ptrs_ok(
                            #[trigger] fr_now[i2],
                            dst_before.len() as int,
                        ) by {
                            assert(fr_now[i2] == fr_pre[i2]);
                            assert(frame_ptrs_ok(fr_pre[i2], dst_before.len() as int));
                        }
                        lemma_roots_reach_grow(dst_before, dnow, fr_now, fi as int);
                        crate::heap::lemma_reach_many_grow(
                            dst_before,
                            dnow,
                            fr_pre[fi as int].locals,
                        );
                        let tpre = fr_pre[fi as int].registers.take(j as int);
                        assert forall|k2: int|
                            0 <= k2 < tpre.len() implies ((#[trigger] tpre[k2]) matches Some(pq)
                            ==> (pq.0 as int) < dst_before.len()) by {
                            assert(tpre[k2] == fr_pre[fi as int].registers[k2]);
                            assert(f0.registers[k2] is Some == fr_pre[fi as int].registers[
                                k2
                            ] is Some);
                            if f0.registers[k2] is Some {
                                assert(f0.registers[k2] matches Some(p_old) ==> (fr_pre[
                                    fi as int
                                ].registers[k2] matches Some(p_new) && (p_new.0 as int)
                                    < dst_before.len()));
                            }
                        }
                        crate::heap::lemma_reach_opts_grow(dst_before, dnow, tpre);
                        assert(fr_now[fi as int].registers.take(j + 1) =~= tpre.push(Some(pj)));
                        crate::heap::lemma_reach_opts_snoc(dnow, tpre, Some(pj), dnow.len() as int);
                        assert(fr_now[fi as int].locals == fr_pre[fi as int].locals);
                        assert forall|jj: int|
                            0 <= jj < dnow.len() implies #[trigger] regs_cov(
                            dnow,
                            fr_now,
                            fi as int,
                            j + 1,
                        ).contains(jj) by {
                            if jj < dst_before.len() {
                                assert(regs_cov(dst_before, fr_pre, fi as int, j as int).contains(
                                    jj,
                                ));
                            } else {
                                assert(reach_from(dnow, pj.0 as int).contains(jj));
                                assert(0 <= (pj.0 as int) < dnow.len());
                            }
                        }
                        crate::heap::lemma_reach_opts_snoc(
                            src0,
                            f0.registers.take(j as int),
                            f0.registers[j as int],
                            src0.len() as int,
                        );
                        assert(f0.registers.take(j + 1) =~= f0.registers.take(j as int).push(
                            f0.registers[j as int],
                        ));
                        assert(f0.registers[j as int] == Some(p));
                        assert(0 <= (p.0 as int) < src0.len());
                        assert(crate::heap::thwart_set(src@) =~= roots_reach(
                            src0,
                            frames0,
                            fi as int,
                        ).union(reach_many(src0, f0.locals, src0.len() as int)).union(
                            reach_opts(src0, f0.registers.take(j + 1), src0.len() as int),
                        ));
                        lemma_roots_stable(
                            src0,
                            frames0,
                            frames@,
                            dst_before,
                            dst.deep_view(),
                            fi as int,
                        );
                        assert forall|i: int|
                            0 <= i < f0.locals.len() implies tree_of(
                            dst.deep_view(),
                            (#[trigger] frames@[fi as int].deep_view().locals[i]).0 as int,
                        ) == tree_of(src0, f0.locals[i].0 as int) by {
                            crate::heap::lemma_tree_prefix(
                                dst_before,
                                dst.deep_view(),
                                frames@[fi as int].deep_view().locals[i].0 as int,
                            );
                        }
                        assert forall|i: int|
                            0 <= i < j implies ((#[trigger] f0.registers[i]) matches Some(p_old)
                            ==> (frames@[fi as int].deep_view().registers[i] matches Some(p_new)
                            && (p_new.0 as int) < dst.deep_view().len() && tree_of(
                            dst.deep_view(),
                            p_new.0 as int,
                        ) == tree_of(src0, p_old.0 as int))) by {
                            if f0.registers[i] is Some {
                                let p_new = frames@[fi as int].deep_view().registers[i].unwrap();
                                crate::heap::lemma_tree_prefix(
                                    dst_before,
                                    dst.deep_view(),
                                    p_new.0 as int,
                                );
                            }
                        }
                    }
                },
                None => {
                    proof {
                        assert(f0.registers[j as int] == frames@[fi as int].deep_view().registers[
                            j as int
                        ]);
                        crate::heap::lemma_reach_opts_snoc(
                            src0,
                            f0.registers.take(j as int),
                            f0.registers[j as int],
                            src0.len() as int,
                        );
                        assert(f0.registers.take(j + 1) =~= f0.registers.take(j as int).push(
                            f0.registers[j as int],
                        ));
                        assert(f0.registers[j as int] is None);
                        assert(crate::heap::thwart_set(src@) =~= roots_reach(
                            src0,
                            frames0,
                            fi as int,
                        ).union(reach_many(src0, f0.locals, src0.len() as int)).union(
                            reach_opts(src0, f0.registers.take(j + 1), src0.len() as int),
                        ));
                        let dnow = dst.deep_view();
                        let fr_now = frames.deep_view();
                        assert(fr_now[fi as int].registers.take(j + 1) =~= fr_now[
                            fi as int
                        ].registers.take(j as int).push(None));
                        crate::heap::lemma_reach_opts_snoc(
                            dnow,
                            fr_now[fi as int].registers.take(j as int),
                            None,
                            dnow.len() as int,
                        );
                        assert forall|jj: int|
                            0 <= jj < dnow.len() implies #[trigger] regs_cov(
                            dnow,
                            fr_now,
                            fi as int,
                            j + 1,
                        ).contains(jj) by {
                            assert(regs_cov(dnow, fr_now, fi as int, j as int).contains(jj));
                        }
                    }
                },
            }
            j = j + 1;
        }
        proof {
            assert(f0.registers.take(f0.registers.len() as int) =~= f0.registers);
            assert(f0.stack.take(0) =~= Seq::<Ptr>::empty());
            assert(reach_many(src0, Seq::<Ptr>::empty(), src0.len() as int) == Set::<int>::empty());
            assert(crate::heap::thwart_set(src@) =~= roots_reach(src0, frames0, fi as int).union(
                reach_many(src0, f0.locals, src0.len() as int),
            ).union(reach_opts(src0, f0.registers, src0.len() as int)).union(
                reach_many(src0, f0.stack.take(0), src0.len() as int),
            ));
            let dnow = dst.deep_view();
            let fr_now = frames.deep_view();
            assert(fr_now[fi as int].registers.take(fr_now[fi as int].registers.len() as int)
                =~= fr_now[fi as int].registers);
            assert(fr_now[fi as int].stack.take(0) =~= Seq::<Ptr>::empty());
            assert(reach_many(dnow, Seq::<Ptr>::empty(), dnow.len() as int) == Set::<
                int,
            >::empty());
            assert forall|jj: int|
                0 <= jj < dnow.len() implies #[trigger] stack_cov(
                dnow,
                fr_now,
                fi as int,
                0,
            ).contains(jj) by {
                assert(regs_cov(dnow, fr_now, fi as int, fr_now[
                    fi as int
                ].registers.len() as int).contains(jj));
            }
        }
        let nstack = frames[fi].stack.len();
        let mut j: usize = 0;
        while j < nstack
            invariant
                j <= f0.stack.len(),
                fi < frames@.len(),
                frames@.len() == frames0.len(),
                nstack == f0.stack.len(),
                f0 == frames0[fi as int],
                thwart_inv(src0, src@, dst.deep_view()),
                crate::heap::count_inv(src0, src@, dst.deep_view()),
                (crate::heap::thwart_set(src@) == roots_reach(src0, frames0, fi as int).union(
                    reach_many(src0, f0.locals, src0.len() as int),
                ).union(reach_opts(src0, f0.registers, src0.len() as int)).union(
                    reach_many(src0, f0.stack.take(j as int), src0.len() as int),
                )),
                forall|jj: int|
                    0 <= jj < dst.deep_view().len() ==> #[trigger] stack_cov(
                        dst.deep_view(),
                        frames.deep_view(),
                        fi as int,
                        j as int,
                    ).contains(jj),
                src@.len() == src0.len(),
                forall|i: int|
                    0 <= i < frames0.len() ==> frame_ptrs_ok(
                        #[trigger] frames0[i],
                        src0.len() as int,
                    ),
                forall|i: int|
                    fi < i < frames0.len() ==> (#[trigger] frames@[i]).deep_view() == frames0[i],
                frames@[fi as int].deep_view().fn_idx == f0.fn_idx,
                frames@[fi as int].deep_view().ip == f0.ip,
                frames@[fi as int].deep_view().locals.len() == f0.locals.len(),
                frames@[fi as int].deep_view().registers.len() == f0.registers.len(),
                frames@[fi as int].deep_view().stack.len() == f0.stack.len(),
                forall|i: int|
                    0 <= i < f0.locals.len() ==> ((#[trigger] frames@[
                        fi as int
                    ].deep_view().locals[i]).0 as int) < dst.deep_view().len(),
                forall|i: int|
                    0 <= i < f0.locals.len() ==> tree_of(
                        dst.deep_view(),
                        (#[trigger] frames@[fi as int].deep_view().locals[i]).0 as int,
                    ) == tree_of(src0, f0.locals[i].0 as int),
                forall|i: int|
                    0 <= i < f0.registers.len() ==> ((#[trigger] f0.registers[i]) is Some
                        == frames@[fi as int].deep_view().registers[i] is Some),
                forall|i: int|
                    0 <= i < f0.registers.len() ==> ((#[trigger] f0.registers[i]) matches Some(
                        p_old,
                    ) ==> (frames@[fi as int].deep_view().registers[i] matches Some(p_new) && (
                    p_new.0 as int) < dst.deep_view().len() && tree_of(
                        dst.deep_view(),
                        p_new.0 as int,
                    ) == tree_of(src0, p_old.0 as int))),
                forall|i: int|
                    j <= i < f0.stack.len() ==> #[trigger] frames@[fi as int].deep_view().stack[i]
                        == f0.stack[i],
                forall|i: int|
                    0 <= i < j ==> ((#[trigger] frames@[fi as int].deep_view().stack[i]).0 as int)
                        < dst.deep_view().len(),
                forall|i: int|
                    0 <= i < j ==> tree_of(
                        dst.deep_view(),
                        (#[trigger] frames@[fi as int].deep_view().stack[i]).0 as int,
                    ) == tree_of(src0, f0.stack[i].0 as int),
                forall|i: int|
                    0 <= i < fi ==> frame_ptrs_ok(
                        (#[trigger] frames@[i]).deep_view(),
                        dst.deep_view().len() as int,
                    ),
                forall|i: int|
                    0 <= i < fi ==> frame_trees_match(
                        src0,
                        frames0[i],
                        dst.deep_view(),
                        (#[trigger] frames@[i]).deep_view(),
                    ),
            decreases f0.stack.len() - j,
        {
            let mut pj = frames[fi].stack[j];
            proof {
                assert(pj == f0.stack[j as int]);
                assert((pj.0 as int) < src0.len());
            }
            let ghost dst_before = dst.deep_view();
            let ghost fr_pre = frames.deep_view();
            compact_hit(&mut src, &mut dst, &mut pj, Ghost(src0));
            frames[fi].stack[j] = pj;
            proof {
                let dnow = dst.deep_view();
                let fr_now = frames.deep_view();
                assert(forall|i2: int| 0 <= i2 < fi ==> #[trigger] fr_pre[i2] == fr_now[i2]);
                lemma_roots_reach_agree(dst_before, fr_pre, fr_now, fi as int);
                assert forall|i2: int|
                    0 <= i2 < fi implies frame_ptrs_ok(
                    #[trigger] fr_now[i2],
                    dst_before.len() as int,
                ) by {
                    assert(fr_now[i2] == fr_pre[i2]);
                    assert(frame_ptrs_ok(fr_pre[i2], dst_before.len() as int));
                }
                lemma_roots_reach_grow(dst_before, dnow, fr_now, fi as int);
                crate::heap::lemma_reach_many_grow(dst_before, dnow, fr_pre[fi as int].locals);
                assert forall|k2: int|
                    0 <= k2 < fr_pre[fi as int].registers.len() implies ((#[trigger] fr_pre[
                    fi as int
                ].registers[k2]) matches Some(pq) ==> (pq.0 as int) < dst_before.len()) by {
                    assert(f0.registers[k2] is Some == fr_pre[fi as int].registers[k2] is Some);
                    if f0.registers[k2] is Some {
                        assert(f0.registers[k2] matches Some(p_old) ==> (fr_pre[
                            fi as int
                        ].registers[k2] matches Some(p_new) && (p_new.0 as int)
                            < dst_before.len()));
                    }
                }
                crate::heap::lemma_reach_opts_grow(dst_before, dnow, fr_pre[fi as int].registers);
                let tpre = fr_pre[fi as int].stack.take(j as int);
                assert(forall|k2: int|
                    0 <= k2 < tpre.len() ==> ((#[trigger] tpre[k2]).0 as int) < dst_before.len());
                crate::heap::lemma_reach_many_grow(dst_before, dnow, tpre);
                assert(fr_now[fi as int].stack.take(j + 1) =~= tpre.push(pj));
                crate::heap::lemma_reach_many_snoc(dnow, tpre, pj, dnow.len() as int);
                assert(fr_now[fi as int].locals == fr_pre[fi as int].locals);
                assert(fr_now[fi as int].registers == fr_pre[fi as int].registers);
                assert forall|jj: int|
                    0 <= jj < dnow.len() implies #[trigger] stack_cov(
                    dnow,
                    fr_now,
                    fi as int,
                    j + 1,
                ).contains(jj) by {
                    if jj < dst_before.len() {
                        assert(stack_cov(dst_before, fr_pre, fi as int, j as int).contains(jj));
                    } else {
                        assert(reach_from(dnow, pj.0 as int).contains(jj));
                        assert(0 <= (pj.0 as int) < dnow.len());
                    }
                }
                crate::heap::lemma_reach_many_snoc(
                    src0,
                    f0.stack.take(j as int),
                    f0.stack[j as int],
                    src0.len() as int,
                );
                assert(f0.stack.take(j + 1) =~= f0.stack.take(j as int).push(f0.stack[j as int]));
                assert(0 <= (f0.stack[j as int].0 as int) < src0.len());
                assert(crate::heap::thwart_set(src@) =~= roots_reach(
                    src0,
                    frames0,
                    fi as int,
                ).union(reach_many(src0, f0.locals, src0.len() as int)).union(
                    reach_opts(src0, f0.registers, src0.len() as int),
                ).union(reach_many(src0, f0.stack.take(j + 1), src0.len() as int)));
                lemma_roots_stable(src0, frames0, frames@, dst_before, dst.deep_view(), fi as int);
                assert forall|i: int|
                    0 <= i < f0.locals.len() implies tree_of(
                    dst.deep_view(),
                    (#[trigger] frames@[fi as int].deep_view().locals[i]).0 as int,
                ) == tree_of(src0, f0.locals[i].0 as int) by {
                    crate::heap::lemma_tree_prefix(
                        dst_before,
                        dst.deep_view(),
                        frames@[fi as int].deep_view().locals[i].0 as int,
                    );
                }
                assert forall|i: int|
                    0 <= i < f0.registers.len() implies ((#[trigger] f0.registers[i]) matches Some(
                    p_old,
                ) ==> (frames@[fi as int].deep_view().registers[i] matches Some(p_new) && (
                p_new.0 as int) < dst.deep_view().len() && tree_of(dst.deep_view(), p_new.0 as int)
                    == tree_of(src0, p_old.0 as int))) by {
                    if f0.registers[i] is Some {
                        let p_new = frames@[fi as int].deep_view().registers[i].unwrap();
                        crate::heap::lemma_tree_prefix(dst_before, dst.deep_view(), p_new.0 as int);
                    }
                }
                assert forall|i: int|
                    0 <= i < j implies tree_of(
                    dst.deep_view(),
                    (#[trigger] frames@[fi as int].deep_view().stack[i]).0 as int,
                ) == tree_of(src0, f0.stack[i].0 as int) by {
                    crate::heap::lemma_tree_prefix(
                        dst_before,
                        dst.deep_view(),
                        frames@[fi as int].deep_view().stack[i].0 as int,
                    );
                }
            }
            j = j + 1;
        }
        proof {
            let fnew = frames@[fi as int].deep_view();
            let fx = frames0[fi as int];
            assert forall|i: int|
                0 <= i < fnew.registers.len() implies ((#[trigger] fnew.registers[i]) matches Some(
                p,
            ) ==> (p.0 as int) < dst.deep_view().len()) by {
                assert(fx.registers[i] is Some == fnew.registers[i] is Some);
                if fx.registers[i] is Some {
                    assert(fx.registers[i] matches Some(p_old) ==> (fnew.registers[i] matches Some(
                        p_new,
                    ) && (p_new.0 as int) < dst.deep_view().len() && tree_of(
                        dst.deep_view(),
                        p_new.0 as int,
                    ) == tree_of(src0, p_old.0 as int)));
                }
            }
            assert(frame_ptrs_ok(fnew, dst.deep_view().len() as int));
            assert(frame_trees_match(src0, fx, dst.deep_view(), fnew));
            assert(f0.stack.take(f0.stack.len() as int) =~= f0.stack);
            assert(crate::heap::thwart_set(src@) =~= roots_reach(src0, frames0, fi + 1)) by {
                assert(roots_reach(src0, frames0, fi + 1) == roots_reach(
                    src0,
                    frames0,
                    fi as int,
                ).union(frame_reach(src0, f0)));
            }
            let dnow = dst.deep_view();
            let fr_now = frames.deep_view();
            assert(fr_now[fi as int].stack.take(fr_now[fi as int].stack.len() as int) =~= fr_now[
                fi as int
            ].stack);
            assert forall|jj: int|
                0 <= jj < dnow.len() implies #[trigger] roots_reach(
                dnow,
                fr_now,
                fi + 1,
            ).contains(jj) by {
                assert(stack_cov(dnow, fr_now, fi as int, fr_now[
                    fi as int
                ].stack.len() as int).contains(jj));
                assert(roots_reach(dnow, fr_now, fi + 1) == roots_reach(
                    dnow,
                    fr_now,
                    fi as int,
                ).union(frame_reach(dnow, fr_now[fi as int])));
            }
        }
        fi = fi + 1;
    }
    proof {
        assert(crate::heap::thwart_set(src@) == roots_reach(src0, frames0, frames0.len() as int));
        assert(dst.deep_view().len() == roots_reach(src0, frames0, frames0.len() as int).len());
        assert(forall|jj: int|
            0 <= jj < dst.deep_view().len() ==> #[trigger] roots_reach(
                dst.deep_view(),
                frames.deep_view(),
                frames.deep_view().len() as int,
            ).contains(jj));
    }
    GC(dst)
}

/// Frames already rewritten keep their validity and trees when the target
/// arena grows.
proof fn lemma_roots_stable(
    src0: Seq<SpecValue>,
    frames0: Seq<SpecFrame>,
    frames_now: Seq<Frame>,
    dst_before: Seq<SpecValue>,
    dst_now: Seq<SpecValue>,
    fi: int,
)
    requires
        dst_before.is_prefix_of(dst_now),
        0 <= fi <= frames_now.len(),
        frames_now.len() == frames0.len(),
        forall|i: int|
            0 <= i < fi ==> frame_ptrs_ok(
                (#[trigger] frames_now[i]).deep_view(),
                dst_before.len() as int,
            ),
        forall|i: int|
            0 <= i < fi ==> frame_trees_match(
                src0,
                frames0[i],
                dst_before,
                (#[trigger] frames_now[i]).deep_view(),
            ),
    ensures
        forall|i: int|
            0 <= i < fi ==> frame_ptrs_ok(
                (#[trigger] frames_now[i]).deep_view(),
                dst_now.len() as int,
            ),
        forall|i: int|
            0 <= i < fi ==> frame_trees_match(
                src0,
                frames0[i],
                dst_now,
                (#[trigger] frames_now[i]).deep_view(),
            ),
{
    assert forall|i: int|
        0 <= i < fi implies frame_ptrs_ok(
        (#[trigger] frames_now[i]).deep_view(),
        dst_now.len() as int,
    ) && frame_trees_match(src0, frames0[i], dst_now, frames_now[i].deep_view()) by {
        let fnew = frames_now[i].deep_view();
        let fold0 = frames0[i];
        assert forall|k: int|
            0 <= k < fold0.locals.len() implies tree_of(
            dst_now,
            (#[trigger] fnew.locals[k]).0 as int,
        ) == tree_of(src0, fold0.locals[k].0 as int) by {
            crate::heap::lemma_tree_prefix(dst_before, dst_now, fnew.locals[k].0 as int);
        }
        assert forall|k: int|
            0 <= k < fold0.registers.len() implies ((#[trigger] fold0.registers[k]) matches Some(
            p_old,
        ) ==> (fnew.registers[k] matches Some(p_new) && tree_of(dst_now, p_new.0 as int) == tree_of(
            src0,
            p_old.0 as int,
        ))) by {
            if fold0.registers[k] is Some {
                let p_new = fnew.registers[k].unwrap();
                crate::heap::lemma_tree_prefix(dst_before, dst_now, p_new.0 as int);
            }
        }
        assert forall|k: int|
            0 <= k < fold0.stack.len() implies tree_of(
            dst_now,
            (#[trigger] fnew.stack[k]).0 as int,
        ) == tree_of(src0, fold0.stack[k].0 as int) by {
            crate::heap::lemma_tree_prefix(dst_before, dst_now, fnew.stack[k].0 as int);
        }
    }
}

/// A fatal execution error. The variant names which rule was broken;
/// `Internal` marks states the linker can never produce.
#[derive(Clone, Copy, Debug, PartialEq, Eq, Structural)]
pub enum VmError {
    EntryModuleNotFound,
    EntryMainNotFound,
    StackUnderflow,
    UninitializedLocal,
    OutOfOrderLocal,
    RegisterNotAllocated,
    RegisterEmpty,
    BadStringIndex,
    NotACallable,
    UnknownIntrinsicCall,
    NotAnInt,
    NonBinaryComparison,
    DivisionByZero,
    ArithmeticOverflow,
    NotAVariant,
    WrongConstructor,
    LeakedValues,
    TopLevelLeak,
    Internal,
}

pub open spec fn digit_char(d: int) -> char {
    if d == 0 {
        '0'
    } else if d == 1 {
        '1'
    } else if d == 2 {
        '2'
    } else if d == 3 {
        '3'
    } else if d == 4 {
        '4'
    } else if d == 5 {
        '5'
    } else if d == 6 {
        '6'
    } else if d == 7 {
        '7'
    } else if d == 8 {
        '8'
    } else {
        '9'
    }
}

/// Decimal rendering of a natural number.
pub open spec fn dec_nat(n: nat) -> Seq<char>
    decreases n,
{
    if n < 10 {
        seq![digit_char(n as int)]
    } else {
        dec_nat(n / 10).push(digit_char((n % 10) as int))
    }
}

/// Decimal rendering of an integer.
pub open spec fn dec_int(n: int) -> Seq<char> {
    if n < 0 {
        seq!['-'] + dec_nat((-n) as nat)
    } else {
        dec_nat(n as nat)
    }
}

/// What `print` shows for one value: integers in decimal, strings as they
/// are, anything else as a placeholder.
pub open spec fn spec_render(v: SpecValue) -> Seq<char> {
    match v {
        SpecValue::Int(n) => dec_int(n as int),
        SpecValue::Str(s) => s,
        SpecValue::Thwart(j) => "<thwart>"@,
        _ => "<value>"@,
    }
}

fn append_digit(s: &mut String, d: u64)
    requires
        d < 10,
    ensures
        final(s)@ == old(s)@ + seq![digit_char(d as int)],
{
    if d == 0 {
        s.append("0");
        proof {
            reveal_strlit("0");
            assert("0"@ =~= seq!['0']);
        }
    } else if d == 1 {
        s.append("1");
        proof {
            reveal_strlit("1");
            assert("1"@ =~= seq!['1']);
        }
    } else if d == 2 {
        s.append("2");
        proof {
            reveal_strlit("2");
            assert("2"@ =~= seq!['2']);
        }
    } else if d == 3 {
        s.append("3");
        proof {
            reveal_strlit("3");
            assert("3"@ =~= seq!['3']);
        }
    } else if d == 4 {
        s.append("4");
        proof {
            reveal_strlit("4");
            assert("4"@ =~= seq!['4']);
        }
    } else if d == 5 {
        s.append("5");
        proof {
            reveal_strlit("5");
            assert("5"@ =~= seq!['5']);
        }
    } else if d == 6 {
        s.append("6");
        proof {
            reveal_strlit("6");
            assert("6"@ =~= seq!['6']);
        }
    } else if d == 7 {
        s.append("7");
        proof {
            reveal_strlit("7");
            assert("7"@ =~= seq!['7']);
        }
    } else if d == 8 {
        s.append("8");
        proof {
            reveal_strlit("8");
            assert("8"@ =~= seq!['8']);
        }
    } else {
        s.append("9");
        proof {
            reveal_strlit("9");
            assert("9"@ =~= seq!['9']);
        }
    }
}

fn append_mag(s: &mut String, m: u64)
    ensures
        final(s)@ == old(s)@ + dec_nat(m as nat),
    decreases m,
{
    if m >= 10 {
        append_mag(s, m / 10);
        append_digit(s, m % 10);
        proof {
            assert(dec_nat(m as nat) == dec_nat((m as nat) / 10).push(
                digit_char(((m as nat) % 10) as int),
            ));
            assert((m / 10) as nat == (m as nat) / 10);
            assert((m % 10) as int == ((m as nat) % 10) as int);
            assert((old(s)@ + dec_nat((m as nat) / 10)) + seq![
                digit_char(((m as nat) % 10) as int),
            ] =~= old(s)@ + dec_nat(m as nat));
        }
    } else {
        append_digit(s, m);
        proof {
            assert(dec_nat(m as nat) == seq![digit_char(m as int)]);
        }
    }
}

/// Render one integer in decimal.
pub fn render_int(n: i64) -> (r: String)
    ensures
        r@ == dec_int(n as int),
{
    let mut s = String::new();
    if n < 0 {
        s.append("-");
        proof {
            reveal_strlit("-");
            assert("-"@ =~= seq!['-']);
            assert(s@ =~= seq!['-']);
        }
        let m: u64 = ((-(n + 1)) as u64) + 1;
        proof {
            assert(m as nat == (-(n as int)) as nat);
        }
        append_mag(&mut s, m);
        proof {
            assert(s@ == seq!['-'] + dec_nat((-(n as int)) as nat));
        }
    } else {
        append_mag(&mut s, n as u64);
    }
    s
}

/// Render one heap value the way `print` shows it.
pub fn render_value(v: &Value) -> (r: String)
    ensures
        r@ == spec_render(v.deep_view()),
{
    match v {
        Value::IntVal(n) => render_int(*n),
        Value::StrVal(s) => crate::lex::clone_string(s),
        Value::ThwartPtr(j) => String::from_str("<thwart>"),
        _ => String::from_str("<value>"),
    }
}

/// The four arithmetic intrinsics.
#[derive(Clone, Copy, Debug, PartialEq, Eq, Structural)]
pub enum ArithOp {
    Add,
    Sub,
    Mul,
    Div,
}

/// The six comparison intrinsics.
#[derive(Clone, Copy, Debug, PartialEq, Eq, Structural)]
pub enum CmpOp {
    Gt,
    Lt,
    Ge,
    Le,
    EqCmp,
    NeCmp,
}

/// Truncating division, as the machine divides.
pub open spec fn div_trunc(x: int, d: int) -> int {
    if x == 0 {
        0
    } else if x > 0 && d > 0 {
        x / d
    } else if x < 0 && d < 0 {
        ((x * -1) / (d * -1))
    } else if x < 0 {
        ((x * -1) / d) * -1
    } else {
        (x / (d * -1)) * -1
    }
}

/// Apply one arithmetic intrinsic step, or fail on division by zero or a
/// result outside the machine range.
pub open spec fn arith_apply(op: ArithOp, a: i64, b: i64) -> Result<i64, VmError> {
    match op {
        ArithOp::Add => if i64::MIN <= a + b <= i64::MAX {
            Ok((a + b) as i64)
        } else {
            Err(VmError::ArithmeticOverflow)
        },
        ArithOp::Sub => if i64::MIN <= a - b <= i64::MAX {
            Ok((a - b) as i64)
        } else {
            Err(VmError::ArithmeticOverflow)
        },
        ArithOp::Mul => if i64::MIN <= a * b <= i64::MAX {
            Ok((a * b) as i64)
        } else {
            Err(VmError::ArithmeticOverflow)
        },
        ArithOp::Div => if b == 0 {
            Err(VmError::DivisionByZero)
        } else {
            let q = div_trunc(a as int, b as int);
            if i64::MIN <= q <= i64::MAX {
                Ok(q as i64)
            } else {
                Err(VmError::ArithmeticOverflow)
            }
        },
    }
}

pub open spec fn cmp_apply(op: CmpOp, a: i64, b: i64) -> bool {
    match op {
        CmpOp::Gt => a > b,
        CmpOp::Lt => a < b,
        CmpOp::Ge => a >= b,
        CmpOp::Le => a <= b,
        CmpOp::EqCmp => a == b,
        CmpOp::NeCmp => a != b,
    }
}

/// Fold an arithmetic intrinsic over `n` further stack operands, popping
/// right to left.
pub open spec fn arith_fold(
    h: Seq<SpecValue>,
    stack: Seq<Ptr>,
    n: nat,
    acc: i64,
    op: ArithOp,
) -> Result<(i64, Seq<Ptr>), VmError>
    decreases n,
{
    if n == 0 {
        Ok((acc, stack))
    } else if stack.len() == 0 {
        Err(VmError::StackUnderflow)
    } else {
        let p = stack.last();
        if !((p.0 as int) < h.len()) {
            Err(VmError::Internal)
        } else {
            match h[p.0 as int] {
                SpecValue::Int(v) => match arith_apply(op, acc, v) {
                    Ok(acc2) => arith_fold(h, stack.drop_last(), (n - 1) as nat, acc2, op),
                    Err(e) => Err(e),
                },
                _ => Err(VmError::NotAnInt),
            }
        }
    }
}

/// Pop and print `n` stack operands, each on its own line.
pub open spec fn print_fold(
    h: Seq<SpecValue>,
    stack: Seq<Ptr>,
    n: nat,
    out: Seq<Seq<char>>,
) -> Result<(Seq<Seq<char>>, Seq<Ptr>), VmError>
    decreases n,
{
    if n == 0 {
        Ok((out, stack))
    } else if stack.len() == 0 {
        Err(VmError::StackUnderflow)
    } else {
        let p = stack.last();
        if !((p.0 as int) < h.len()) {
            Err(VmError::Internal)
        } else {
            print_fold(h, stack.drop_last(), (n - 1) as nat, out.push(spec_render(h[p.0 as int])))
        }
    }
}

/// Mathematical view of the interpreter's mutable state.
pub struct SpecVm {
    pub heap: Seq<SpecValue>,
    pub frames: Seq<SpecFrame>,
    pub output: Seq<Seq<char>>,
}

/// The interpreter: the linked program and tables, the frame stack, the
/// heap, and the lines printed so far.
#[derive(Debug)]
pub struct Vm {
    pub program: crate::program::Program,
    pub context: crate::program::Context,
    pub heap: GC,
    pub frames: Vec<Frame>,
    pub output: Vec<String>,
}

impl View for Vm {
    type V = SpecVm;

    open spec fn view(&self) -> SpecVm {
        SpecVm {
            heap: self.heap@,
            frames: self.frames.deep_view(),
            output: self.output.deep_view(),
        }
    }
}

/// The interpreter's invariant: the heap is well formed and every frame's
/// pointers land inside it.
pub open spec fn vm_wf(vm: Vm) -> bool {
    &&& heap_wf(vm@.heap)
    &&& forall|i: int|
        0 <= i < vm@.frames.len() ==> frame_ptrs_ok(#[trigger] vm@.frames[i], vm@.heap.len() as int)
}

/// What one dispatch step does: continue, end the program, or fail.
pub enum StepResult {
    Progress(SpecVm),
    Finished(SpecVm),
    Fail(VmError),
}

/// The state with its top frame replaced.
pub open spec fn with_top(s: SpecVm, f: SpecFrame) -> SpecVm {
    SpecVm { frames: s.frames.update(s.frames.len() - 1, f), ..s }
}

/// One step of the `print` / arithmetic / comparison intrinsics, after the
/// callee has been popped, leaving `st1` as the operand stack.
pub open spec fn step_intrinsic(
    s: SpecVm,
    argc: usize,
    name: Seq<char>,
    st1: Seq<Ptr>,
) -> StepResult {
    let f = s.frames.last();
    if name == "print"@ {
        match print_fold(s.heap, st1, argc as nat, Seq::empty()) {
            Ok(pair) => {
                let f2 = SpecFrame { ip: (f.ip + 1) as usize, stack: pair.1, ..f };
                StepResult::Progress(
                    SpecVm {
                        frames: s.frames.update(s.frames.len() - 1, f2),
                        output: s.output + pair.0,
                        ..s
                    },
                )
            },
            Err(e) => StepResult::Fail(e),
        }
    } else if name == "+"@ {
        step_arith(s, argc, ArithOp::Add, st1)
    } else if name == "-"@ {
        step_arith(s, argc, ArithOp::Sub, st1)
    } else if name == "*"@ {
        step_arith(s, argc, ArithOp::Mul, st1)
    } else if name == "/"@ {
        step_arith(s, argc, ArithOp::Div, st1)
    } else if name == ">"@ {
        step_cmp(s, argc, CmpOp::Gt, st1)
    } else if name == "<"@ {
        step_cmp(s, argc, CmpOp::Lt, st1)
    } else if name == ">="@ {
        step_cmp(s, argc, CmpOp::Ge, st1)
    } else if name == "<="@ {
        step_cmp(s, argc, CmpOp::Le, st1)
    } else if name == "=="@ {
        step_cmp(s, argc, CmpOp::EqCmp, st1)
    } else if name == "!="@ {
        step_cmp(s, argc, CmpOp::NeCmp, st1)
    } else {
        StepResult::Fail(VmError::UnknownIntrinsicCall)
    }
}

/// An arithmetic intrinsic: pop the initial operand, fold the rest, push
/// the result.
pub open spec fn step_arith(s: SpecVm, argc: usize, op: ArithOp, st1: Seq<Ptr>) -> StepResult {
    let f = s.frames.last();
    if st1.len() == 0 {
        StepResult::Fail(VmError::StackUnderflow)
    } else {
        let p0 = st1.last();
        if !((p0.0 as int) < s.heap.len()) {
            StepResult::Fail(VmError::Internal)
        } else {
            match s.heap[p0.0 as int] {
                SpecValue::Int(a0) => {
                    let n = if argc == 0 {
                        0 as nat
                    } else {
                        (argc - 1) as nat
                    };
                    match arith_fold(s.heap, st1.drop_last(), n, a0, op) {
                        Ok(pair) => {
                            let p = Ptr(s.heap.len() as usize);
                            let f2 = SpecFrame {
                                ip: (f.ip + 1) as usize,
                                stack: pair.1.push(p),
                                ..f
                            };
                            StepResult::Progress(
                                SpecVm {
                                    heap: s.heap.push(SpecValue::Int(pair.0)),
                                    frames: s.frames.update(s.frames.len() - 1, f2),
                                    ..s
                                },
                            )
                        },
                        Err(e) => StepResult::Fail(e),
                    }
                },
                _ => StepResult::Fail(VmError::NotAnInt),
            }
        }
    }
}

/// A comparison intrinsic: defined only for two operands; pushes one or
/// zero.
pub open spec fn step_cmp(s: SpecVm, argc: usize, op: CmpOp, st1: Seq<Ptr>) -> StepResult {
    let f = s.frames.last();
    if argc != 2 {
        StepResult::Fail(VmError::NonBinaryComparison)
    } else if st1.len() < 2 {
        StepResult::Fail(VmError::StackUnderflow)
    } else {
        let pf = st1.last();
        let psnd = st1[st1.len() - 2];
        if !((pf.0 as int) < s.heap.len()) {
            StepResult::Fail(VmError::Internal)
        } else {
            match s.heap[pf.0 as int] {
                SpecValue::Int(a) => if !((psnd.0 as int) < s.heap.len()) {
                    StepResult::Fail(VmError::Internal)
                } else {
                    match s.heap[psnd.0 as int] {
                        SpecValue::Int(b) => {
                            let res: i64 = if cmp_apply(op, a, b) {
                                1
                            } else {
                                0
                            };
                            let p = Ptr(s.heap.len() as usize);
                            let f2 = SpecFrame {
                                ip: (f.ip + 1) as usize,
                                stack: st1.take(st1.len() - 2).push(p),
                                ..f
                            };
                            StepResult::Progress(
                                SpecVm {
                                    heap: s.heap.push(SpecValue::Int(res)),
                                    frames: s.frames.update(s.frames.len() - 1, f2),
                                    ..s
                                },
                            )
                        },
                        _ => StepResult::Fail(VmError::NotAnInt),
                    }
                },
                _ => StepResult::Fail(VmError::NotAnInt),
            }
        }
    }
}

/// `Call`: pop the callee; run an intrinsic inline, or open a frame whose
/// locals are the arguments in call order.
pub open spec fn step_call(prog: Seq<Seq<SpecInstr>>, s: SpecVm, argc: usize) -> StepResult {
    let f = s.frames.last();
    if f.stack.len() == 0 {
        StepResult::Fail(VmError::StackUnderflow)
    } else {
        let pc = f.stack.last();
        if !((pc.0 as int) < s.heap.len()) {
            StepResult::Fail(VmError::Internal)
        } else {
            let st1 = f.stack.drop_last();
            match s.heap[pc.0 as int] {
                SpecValue::Intr(name) => step_intrinsic(s, argc, name, st1),
                SpecValue::FnRef(fidx) => {
                    if !((fidx.0 as int) < prog.len()) {
                        StepResult::Fail(VmError::Internal)
                    } else if st1.len() < argc {
                        StepResult::Fail(VmError::StackUnderflow)
                    } else {
                        let args = st1.subrange(st1.len() - argc, st1.len() as int);
                        let caller2 = SpecFrame {
                            ip: (f.ip + 1) as usize,
                            stack: st1.take(st1.len() - argc),
                            ..f
                        };
                        let callee = SpecFrame {
                            fn_idx: fidx,
                            ip: 0,
                            locals: args,
                            registers: Seq::empty(),
                            stack: Seq::empty(),
                        };
                        StepResult::Progress(
                            SpecVm {
                                frames: s.frames.update(s.frames.len() - 1, caller2).push(callee),
                                ..s
                            },
                        )
                    }
                },
                _ => StepResult::Fail(VmError::NotACallable),
            }
        }
    }
}

/// One instruction of the top frame.
pub open spec fn step_instr(
    prog: Seq<Seq<SpecInstr>>,
    c: SpecContext,
    s: SpecVm,
    ins: SpecInstr,
) -> StepResult {
    let f = s.frames.last();
    match ins {
        SpecInstr::PushInt(n) => {
            let p = Ptr(s.heap.len() as usize);
            let f2 = SpecFrame { ip: (f.ip + 1) as usize, stack: f.stack.push(p), ..f };
            StepResult::Progress(
                SpecVm {
                    heap: s.heap.push(SpecValue::Int(n)),
                    frames: s.frames.update(s.frames.len() - 1, f2),
                    ..s
                },
            )
        },
        SpecInstr::PushString(sti) => {
            if !((sti.0.0 as int) < c.strings.len()) {
                StepResult::Fail(VmError::Internal)
            } else if !((sti.1 as int) < c.strings[sti.0.0 as int].len()) {
                StepResult::Fail(VmError::BadStringIndex)
            } else {
                let lit = c.strings[sti.0.0 as int][sti.1 as int];
                let p = Ptr(s.heap.len() as usize);
                let f2 = SpecFrame { ip: (f.ip + 1) as usize, stack: f.stack.push(p), ..f };
                StepResult::Progress(
                    SpecVm {
                        heap: s.heap.push(SpecValue::Str(lit)),
                        frames: s.frames.update(s.frames.len() - 1, f2),
                        ..s
                    },
                )
            }
        },
        SpecInstr::LoadLocal(i) => {
            if (i as int) < f.locals.len() {
                let f2 = SpecFrame {
                    ip: (f.ip + 1) as usize,
                    stack: f.stack.push(f.locals[i as int]),
                    ..f
                };
                StepResult::Progress(with_top(s, f2))
            } else {
                StepResult::Fail(VmError::UninitializedLocal)
            }
        },
        SpecInstr::StoreLocal(i) => {
            if f.stack.len() == 0 {
                StepResult::Fail(VmError::StackUnderflow)
            } else {
                let p = f.stack.last();
                let st2 = f.stack.drop_last();
                if (i as int) < f.locals.len() {
                    let f2 = SpecFrame {
                        ip: (f.ip + 1) as usize,
                        locals: f.locals.update(i as int, p),
                        stack: st2,
                        ..f
                    };
                    StepResult::Progress(with_top(s, f2))
                } else if (i as int) == f.locals.len() {
                    let f2 = SpecFrame {
                        ip: (f.ip + 1) as usize,
                        locals: f.locals.push(p),
                        stack: st2,
                        ..f
                    };
                    StepResult::Progress(with_top(s, f2))
                } else {
                    StepResult::Fail(VmError::OutOfOrderLocal)
                }
            }
        },
        SpecInstr::LoadReg(i) => {
            if !((i as int) < f.registers.len()) {
                StepResult::Fail(VmError::RegisterNotAllocated)
            } else {
                match f.registers[i as int] {
                    Some(p) => {
                        let f2 = SpecFrame {
                            ip: (f.ip + 1) as usize,
                            stack: f.stack.push(p),
                            ..f
                        };
                        StepResult::Progress(with_top(s, f2))
                    },
                    None => StepResult::Fail(VmError::RegisterEmpty),
                }
            }
        },
        SpecInstr::StoreReg(i) => {
            if f.stack.len() == 0 {
                StepResult::Fail(VmError::StackUnderflow)
            } else {
                let p = f.stack.last();
                let regs = if (i as int) < f.registers.len() {
                    f.registers
                } else {
                    f.registers + Seq::new((i + 1 - f.registers.len()) as nat, |x: int| None)
                };
                let f2 = SpecFrame {
                    ip: (f.ip + 1) as usize,
                    registers: regs.update(i as int, Some(p)),
                    stack: f.stack.drop_last(),
                    ..f
                };
                StepResult::Progress(with_top(s, f2))
            }
        },
        SpecInstr::Unless(tgt) => {
            if f.stack.len() == 0 {
                StepResult::Fail(VmError::StackUnderflow)
            } else {
                let p = f.stack.last();
                if !((p.0 as int) < s.heap.len()) {
                    StepResult::Fail(VmError::Internal)
                } else {
                    let branch = s.heap[p.0 as int] == SpecValue::Int(0);
                    let f2 = SpecFrame {
                        ip: if branch {
                            tgt
                        } else {
                            (f.ip + 1) as usize
                        },
                        stack: f.stack.drop_last(),
                        ..f
                    };
                    StepResult::Progress(with_top(s, f2))
                }
            }
        },
        SpecInstr::Jump(tgt) => {
            let f2 = SpecFrame { ip: tgt, ..f };
            StepResult::Progress(with_top(s, f2))
        },
        SpecInstr::Call(argc) => step_call(prog, s, argc),
        SpecInstr::LoadName(fidx) => {
            if !((fidx.0 as int) < prog.len()) {
                StepResult::Fail(VmError::Internal)
            } else {
                let p = Ptr(s.heap.len() as usize);
                let f2 = SpecFrame { ip: (f.ip + 1) as usize, stack: f.stack.push(p), ..f };
                StepResult::Progress(
                    SpecVm {
                        heap: s.heap.push(SpecValue::FnRef(fidx)),
                        frames: s.frames.update(s.frames.len() - 1, f2),
                        ..s
                    },
                )
            }
        },
        SpecInstr::LoadIntrinsic(name) => {
            let p = Ptr(s.heap.len() as usize);
            let f2 = SpecFrame { ip: (f.ip + 1) as usize, stack: f.stack.push(p), ..f };
            StepResult::Progress(
                SpecVm {
                    heap: s.heap.push(SpecValue::Intr(name)),
                    frames: s.frames.update(s.frames.len() - 1, f2),
                    ..s
                },
            )
        },
        SpecInstr::Instantiate(ci) => {
            if !((ci.0 as int) < c.constructor_fields.len()) {
                StepResult::Fail(VmError::Internal)
            } else {
                let n = c.constructor_fields[ci.0 as int].len();
                if f.stack.len() < n {
                    StepResult::Fail(VmError::StackUnderflow)
                } else {
                    let fields = f.stack.subrange(
                        f.stack.len() - n,
                        f.stack.len() as int,
                    );
                    let p = Ptr(s.heap.len() as usize);
                    let f2 = SpecFrame {
                        ip: (f.ip + 1) as usize,
                        stack: f.stack.take(f.stack.len() - n).push(p),
                        ..f
                    };
                    StepResult::Progress(
                        SpecVm {
                            heap: s.heap.push(SpecValue::Variant(ci, fields)),
                            frames: s.frames.update(s.frames.len() - 1, f2),
                            ..s
                        },
                    )
                }
            }
        },
        SpecInstr::IsVariant(ci) => {
            if f.stack.len() == 0 {
                StepResult::Fail(VmError::StackUnderflow)
            } else {
                let p = f.stack.last();
                if !((p.0 as int) < s.heap.len()) {
                    StepResult::Fail(VmError::Internal)
                } else {
                    match s.heap[p.0 as int] {
                        SpecValue::Variant(vc, ps) => {
                            let res: i64 = if vc == ci {
                                1
                            } else {
                                0
                            };
                            let np = Ptr(s.heap.len() as usize);
                            let f2 = SpecFrame {
                                ip: (f.ip + 1) as usize,
                                stack: f.stack.drop_last().push(np),
                                ..f
                            };
                            StepResult::Progress(
                                SpecVm {
                                    heap: s.heap.push(SpecValue::Int(res)),
                                    frames: s.frames.update(s.frames.len() - 1, f2),
                                    ..s
                                },
                            )
                        },
                        _ => StepResult::Fail(VmError::NotAVariant),
                    }
                }
            }
        },
        SpecInstr::Field(ci, k) => {
            if f.stack.len() == 0 {
                StepResult::Fail(VmError::StackUnderflow)
            } else {
                let p = f.stack.last();
                if !((p.0 as int) < s.heap.len()) {
                    StepResult::Fail(VmError::Internal)
                } else {
                    match s.heap[p.0 as int] {
                        SpecValue::Variant(vc, ps) => {
                            if vc != ci {
                                StepResult::Fail(VmError::WrongConstructor)
                            } else if !((k as int) < ps.len()) {
                                StepResult::Fail(VmError::Internal)
                            } else {
                                let f2 = SpecFrame {
                                    ip: (f.ip + 1) as usize,
                                    stack: f.stack.drop_last().push(ps[k as int]),
                                    ..f
                                };
                                StepResult::Progress(with_top(s, f2))
                            }
                        },
                        _ => StepResult::Fail(VmError::NotAVariant),
                    }
                }
            }
        },
    }
}

/// One dispatch step: return from an exhausted frame, or execute the
/// instruction at the top frame's `ip`.
pub open spec fn step_spec(prog: Seq<Seq<SpecInstr>>, c: SpecContext, s: SpecVm) -> StepResult
    recommends
        s.frames.len() > 0,
{
    let f = s.frames.last();
    if !((f.fn_idx.0 as int) < prog.len()) {
        StepResult::Fail(VmError::Internal)
    } else {
        let body = prog[f.fn_idx.0 as int];
        if !((f.ip as int) < body.len()) {
            let rest = s.frames.drop_last();
            if rest.len() == 0 {
                if f.stack.len() == 0 {
                    StepResult::Finished(SpecVm { frames: rest, ..s })
                } else {
                    StepResult::Fail(VmError::TopLevelLeak)
                }
            } else {
                if f.stack.len() == 0 {
                    StepResult::Progress(SpecVm { frames: rest, ..s })
                } else if f.stack.len() == 1 {
                    let caller = rest.last();
                    let caller2 = SpecFrame { stack: caller.stack.push(f.stack[0]), ..caller };
                    StepResult::Progress(
                        SpecVm { frames: rest.update(rest.len() - 1, caller2), ..s },
                    )
                } else {
                    StepResult::Fail(VmError::LeakedValues)
                }
            }
        } else {
            step_instr(prog, c, s, body[f.ip as int])
        }
    }
}

impl Vm {
    /// Pop an exhausted frame: hand a single produced value to the caller,
    /// finish the program on an empty final stack, and refuse leaks.
    fn exec_return(&mut self) -> (r: Result<bool, VmError>)
        requires
            vm_wf(*old(self)),
            old(self)@.frames.len() > 0,
            (old(self)@.frames.last().fn_idx.0 as int) < old(self).program@.len(),
            old(self)@.frames.last().ip >= old(self).program@[
                old(self)@.frames.last().fn_idx.0 as int
            ].len(),
        ensures
            vm_wf(*final(self)),
            final(self).program@ == old(self).program@,
            final(self).context@ == old(self).context@,
            old(self)@.output.is_prefix_of(final(self)@.output),
            (match r {
                Ok(false) => step_spec(old(self).program@, old(self).context@, old(self)@)
                    == StepResult::Progress(final(self)@),
                Ok(true) => step_spec(old(self).program@, old(self).context@, old(self)@)
                    == StepResult::Finished(final(self)@) && final(self)@.frames.len() == 0,
                Err(e) => step_spec(old(self).program@, old(self).context@, old(self)@)
                    == StepResult::Fail(e) && final(self)@ == old(self)@,
            }),
    {
        let ghost s0 = self@;
        proof {
            assert(s0 == old(self)@);
        }
        let old_frame = match self.frames.pop() {
            Some(fr) => fr,
            None => {
                proof {
                    assert(false);
                }
                return Err(VmError::Internal);
            },
        };
        proof {
            assert(old_frame.deep_view() == s0.frames.last());
            assert(self@.frames =~= s0.frames.drop_last());
        }
        if self.frames.len() == 0 {
            if old_frame.stack.len() == 0 {
                proof {
                    assert(self@ == SpecVm { frames: s0.frames.drop_last(), ..s0 });
                    assert(step_spec(old(self).program@, old(self).context@, s0)
                        == StepResult::Finished(self@));
                }
                Ok(true)
            } else {
                self.frames.push(old_frame);
                proof {
                    assert(self@.frames =~= s0.frames);
                    assert(self@ == s0);
                }
                Err(VmError::TopLevelLeak)
            }
        } else {
            let ci = self.frames.len() - 1;
            if old_frame.stack.len() == 0 {
                proof {
                    assert(self@ == SpecVm { frames: s0.frames.drop_last(), ..s0 });
                    assert(step_spec(old(self).program@, old(self).context@, s0)
                        == StepResult::Progress(self@));
                }
                Ok(false)
            } else if old_frame.stack.len() == 1 {
                let p = old_frame.stack[0];
                let ghost caller0 = self@.frames[ci as int];
                self.frames[ci].stack.push(p);
                proof {
                    let rest = s0.frames.drop_last();
                    let caller2 = SpecFrame { stack: caller0.stack.push(p), ..caller0 };
                    assert(caller0 == rest.last());
                    assert(p == s0.frames.last().stack[0]);
                    assert(self@.frames =~= rest.update(rest.len() - 1, caller2));
                    assert(self@ == SpecVm { frames: rest.update(rest.len() - 1, caller2), ..s0 });
                    assert(step_spec(old(self).program@, old(self).context@, s0)
                        == StepResult::Progress(self@));
                    assert(forall|i: int|
                        0 <= i < self@.frames.len() ==> frame_ptrs_ok(
                            #[trigger] self@.frames[i],
                            self@.heap.len() as int,
                        )) by {
                        assert(forall|i: int|
                            0 <= i < s0.frames.len() ==> frame_ptrs_ok(
                                #[trigger] s0.frames[i],
                                s0.heap.len() as int,
                            ));
                        assert((p.0 as int) < s0.heap.len());
                        assert(forall|k: int|
                            0 <= k < caller2.stack.len() - 1 ==> caller2.stack[k]
                                == caller0.stack[k]);
                    }
                }
                Ok(false)
            } else {
                self.frames.push(old_frame);
                proof {
                    assert(self@.frames =~= s0.frames);
                    assert(self@ == s0);
                }
                Err(VmError::LeakedValues)
            }
        }
    }

    /// Execute one dispatch step: return from an exhausted frame or run the
    /// instruction at the top frame's `ip`. `Ok(true)` means the program
    /// finished cleanly.
    #[verifier::rlimit(100)]
    pub fn step(&mut self) -> (r: Result<bool, VmError>)
        requires
            vm_wf(*old(self)),
            old(self)@.frames.len() > 0,
        ensures
            vm_wf(*final(self)),
            final(self).program@ == old(self).program@,
            final(self).context@ == old(self).context@,
            old(self)@.output.is_prefix_of(final(self)@.output),
            (match r {
                Ok(false) => step_spec(old(self).program@, old(self).context@, old(self)@)
                    == StepResult::Progress(final(self)@),
                Ok(true) => step_spec(old(self).program@, old(self).context@, old(self)@)
                    == StepResult::Finished(final(self)@) && final(self)@.frames.len() == 0,
                Err(e) => step_spec(old(self).program@, old(self).context@, old(self)@)
                    == StepResult::Fail(e) && final(self)@ == old(self)@,
            }),
    {
        let ghost s0 = self@;
        let ghost prog = self.program@;
        let ghost c = self.context@;
        let fi = self.frames.len() - 1;
        let fn_idx = self.frames[fi].fn_idx;
        if !(fn_idx.0 < self.program.len()) {
            return Err(VmError::Internal);
        }
        let ip = self.frames[fi].ip;
        let body_len = self.program.at(fn_idx).len();
        if ip >= body_len {
            return self.exec_return();
        }
        let ghost f0 = s0.frames.last();
        let ghost ins = prog[f0.fn_idx.0 as int][f0.ip as int];
        proof {
            assert(step_spec(prog, c, s0) == step_instr(prog, c, s0, ins));
        }
        let instr = crate::program::clone_instruction(&self.program.at(fn_idx)[ip]);
        proof {
            assert(instr.deep_view() == ins);
        }
        match instr {
            crate::program::Instruction::PushInt(n) => {
                let p = self.heap.allocate(Value::IntVal(n));
                self.frames[fi].stack.push(p);
                self.frames[fi].ip = ip + 1;
                proof {
                    self.lemma_after_alloc_push(s0, SpecValue::Int(n));
                }
                Ok(false)
            },
            crate::program::Instruction::PushString(sti) => {
                if !(sti.0.0 < self.context.strings_len()) {
                    return Err(VmError::Internal);
                }
                if !(sti.1 < self.context.module_strings_len(sti.0.0)) {
                    return Err(VmError::BadStringIndex);
                }
                let lit = crate::lex::clone_string(self.context.string(sti));
                let p = self.heap.allocate(Value::StrVal(lit));
                self.frames[fi].stack.push(p);
                self.frames[fi].ip = ip + 1;
                proof {
                    self.lemma_after_alloc_push(s0, SpecValue::Str(c.strings[sti.0.0 as int][sti.1 as int]));
                }
                Ok(false)
            },
            crate::program::Instruction::LoadLocal(i) => {
                if !(i < self.frames[fi].locals.len()) {
                    return Err(VmError::UninitializedLocal);
                }
                let p = self.frames[fi].locals[i];
                self.frames[fi].stack.push(p);
                self.frames[fi].ip = ip + 1;
                proof {
                    let f2 = SpecFrame {
                        ip: (f0.ip + 1) as usize,
                        stack: f0.stack.push(f0.locals[i as int]),
                        ..f0
                    };
                    assert(self@.frames =~= s0.frames.update(s0.frames.len() - 1, f2));
                    self.lemma_top_replaced(s0, f2);
                }
                Ok(false)
            },
            crate::program::Instruction::StoreLocal(i) => {
                let slen = self.frames[fi].stack.len();
                if slen == 0 {
                    return Err(VmError::StackUnderflow);
                }
                let p = self.frames[fi].stack[slen - 1];
                let llen = self.frames[fi].locals.len();
                if i < llen {
                    self.frames[fi].stack.pop();
                    self.frames[fi].locals[i] = p;
                    self.frames[fi].ip = ip + 1;
                    proof {
                        let f2 = SpecFrame {
                            ip: (f0.ip + 1) as usize,
                            locals: f0.locals.update(i as int, f0.stack.last()),
                            stack: f0.stack.drop_last(),
                            ..f0
                        };
                        assert(self@.frames =~= s0.frames.update(s0.frames.len() - 1, f2));
                        self.lemma_top_replaced(s0, f2);
                    }
                    Ok(false)
                } else if i == llen {
                    self.frames[fi].stack.pop();
                    self.frames[fi].locals.push(p);
                    self.frames[fi].ip = ip + 1;
                    proof {
                        let f2 = SpecFrame {
                            ip: (f0.ip + 1) as usize,
                            locals: f0.locals.push(f0.stack.last()),
                            stack: f0.stack.drop_last(),
                            ..f0
                        };
                        assert(self@.frames =~= s0.frames.update(s0.frames.len() - 1, f2));
                        self.lemma_top_replaced(s0, f2);
                    }
                    Ok(false)
                } else {
                    Err(VmError::OutOfOrderLocal)
                }
            },
            crate::program::Instruction::LoadReg(i) => {
                if !(i < self.frames[fi].registers.len()) {
                    return Err(VmError::RegisterNotAllocated);
                }
                match self.frames[fi].registers[i] {
                    Some(p) => {
                        self.frames[fi].stack.push(p);
                        self.frames[fi].ip = ip + 1;
                        proof {
                            let f2 = SpecFrame {
                                ip: (f0.ip + 1) as usize,
                                stack: f0.stack.push(f0.registers[i as int].unwrap()),
                                ..f0
                            };
                            assert(self@.frames =~= s0.frames.update(s0.frames.len() - 1, f2));
                            self.lemma_top_replaced(s0, f2);
                        }
                        Ok(false)
                    },
                    None => Err(VmError::RegisterEmpty),
                }
            },
            crate::program::Instruction::StoreReg(i) => {
                let slen = self.frames[fi].stack.len();
                if slen == 0 {
                    return Err(VmError::StackUnderflow);
                }
                let p = self.frames[fi].stack[slen - 1];
                self.frames[fi].stack.pop();
                let ghost regs0 = f0.registers;
                proof {
                    assert(self@.frames[fi as int].stack =~= f0.stack.drop_last());
                    assert(self@.frames[fi as int] == SpecFrame {
                        registers: self@.frames[fi as int].registers,
                        stack: f0.stack.drop_last(),
                        ..f0
                    });
                }
                while self.frames[fi].registers.len() <= i
                    invariant
                        fi < self@.frames.len(),
                        self@.frames.len() == s0.frames.len(),
                        fi as int == s0.frames.len() - 1,
                        forall|q: int|
                            0 <= q < s0.frames.len() - 1 ==> self@.frames[q] == #[trigger] s0.frames[q],
                        self@.heap == s0.heap,
                        self@.output == s0.output,
                        (self@.frames[fi as int] == SpecFrame {
                            registers: self@.frames[fi as int].registers,
                            stack: f0.stack.drop_last(),
                            ..f0
                        }),
                        s0 == old(self)@,
                        self.program@ == old(self).program@,
                        self.context@ == old(self).context@,
                        f0.registers.len() <= self@.frames[fi as int].registers.len(),
                        self@.frames[fi as int].registers.len() <= i + 1 || self@.frames[
                            fi as int
                        ].registers.len() == f0.registers.len(),
                        forall|q: int|
                            0 <= q < f0.registers.len() ==> self@.frames[fi as int].registers[q]
                                == #[trigger] f0.registers[q],
                        forall|q: int|
                            f0.registers.len() <= q < self@.frames[fi as int].registers.len()
                                ==> self@.frames[fi as int].registers[q] is None,
                    decreases i + 1 - self@.frames[fi as int].registers.len(),
                {
                    self.frames[fi].registers.push(None);
                }
                self.frames[fi].registers[i] = Some(p);
                self.frames[fi].ip = ip + 1;
                proof {
                    let regs = if (i as int) < f0.registers.len() {
                        f0.registers
                    } else {
                        f0.registers + Seq::new((i + 1 - f0.registers.len()) as nat, |x: int| None)
                    };
                    let f2 = SpecFrame {
                        ip: (f0.ip + 1) as usize,
                        registers: regs.update(i as int, Some(f0.stack.last())),
                        stack: f0.stack.drop_last(),
                        ..f0
                    };
                    assert(self@.frames[fi as int].registers =~= regs.update(
                        i as int,
                        Some(f0.stack.last()),
                    ));
                    assert(self@.frames =~= s0.frames.update(s0.frames.len() - 1, f2));
                    self.lemma_top_replaced(s0, f2);
                }
                Ok(false)
            },
            crate::program::Instruction::Unless(tgt) => {
                let slen = self.frames[fi].stack.len();
                if slen == 0 {
                    return Err(VmError::StackUnderflow);
                }
                let p = self.frames[fi].stack[slen - 1];
                proof {
                    assert((p.0 as int) < s0.heap.len());
                }
                let is_zero = match self.heap.at(p) {
                    Value::IntVal(v) => *v == 0i64,
                    _ => false,
                };
                self.frames[fi].stack.pop();
                if is_zero {
                    self.frames[fi].ip = tgt;
                } else {
                    self.frames[fi].ip = ip + 1;
                }
                proof {
                    assert(is_zero == (s0.heap[f0.stack.last().0 as int] == SpecValue::Int(0)));
                    let f2 = SpecFrame {
                        ip: if is_zero {
                            tgt
                        } else {
                            (f0.ip + 1) as usize
                        },
                        stack: f0.stack.drop_last(),
                        ..f0
                    };
                    assert(self@.frames =~= s0.frames.update(s0.frames.len() - 1, f2));
                    self.lemma_top_replaced(s0, f2);
                }
                Ok(false)
            },
            crate::program::Instruction::Jump(tgt) => {
                self.frames[fi].ip = tgt;
                proof {
                    let f2 = SpecFrame { ip: tgt, ..f0 };
                    assert(self@.frames =~= s0.frames.update(s0.frames.len() - 1, f2));
                    self.lemma_top_replaced(s0, f2);
                }
                Ok(false)
            },
            crate::program::Instruction::Call(argc) => {
                let r = self.exec_call(argc);
                proof {
                    assert(step_instr(prog, c, s0, ins) == step_call(prog, s0, argc));
                }
                r
            },
            crate::program::Instruction::LoadName(fidx) => {
                if !(fidx.0 < self.program.len()) {
                    return Err(VmError::Internal);
                }
                let p = self.heap.allocate(Value::ModuleFnRef(fidx));
                self.frames[fi].stack.push(p);
                self.frames[fi].ip = ip + 1;
                proof {
                    self.lemma_after_alloc_push(s0, SpecValue::FnRef(fidx));
                }
                Ok(false)
            },
            crate::program::Instruction::LoadIntrinsic(nm) => {
                let p = self.heap.allocate(Value::Intrinsic(nm));
                self.frames[fi].stack.push(p);
                self.frames[fi].ip = ip + 1;
                proof {
                    assert(ins matches SpecInstr::LoadIntrinsic(n2) && self@.heap
                        == s0.heap.push(SpecValue::Intr(n2)));
                    self.lemma_after_alloc_push(
                        s0,
                        SpecValue::Intr(ins->LoadIntrinsic_0),
                    );
                }
                Ok(false)
            },
            crate::program::Instruction::Instantiate(ci) => {
                if !(ci.0 < self.context.ctors_len()) {
                    return Err(VmError::Internal);
                }
                let n = self.context.ctor_fields_nbr(ci);
                let slen = self.frames[fi].stack.len();
                if slen < n {
                    return Err(VmError::StackUnderflow);
                }
                let mut fields: Vec<Ptr> = Vec::new();
                let mut j: usize = 0;
                while j < n
                    invariant
                        j <= n,
                        n <= slen,
                        slen == f0.stack.len(),
                        s0 == old(self)@,
                        self.program@ == old(self).program@,
                        self.context@ == old(self).context@,
                        c == old(self).context@,
                        n as int == c.constructor_fields[ci.0 as int].len(),
                        self@ == s0,
                        fi < self@.frames.len(),
                        fi as int == s0.frames.len() - 1,
                        f0 == s0.frames.last(),
                        fields@.len() == j,
                        forall|q: int|
                            0 <= q < j ==> fields@[q] == #[trigger] f0.stack[slen - n + q],
                    decreases n - j,
                {
                    let p = self.frames[fi].stack[slen - n + j];
                    fields.push(p);
                    j = j + 1;
                }
                proof {
                    assert forall|q: int|
                        0 <= q < n implies fields@[q] == f0.stack.subrange(
                        f0.stack.len() - n,
                        f0.stack.len() as int,
                    )[q] by {
                        assert(fields@[q] == f0.stack[slen - n + q]);
                        assert(f0.stack.subrange(f0.stack.len() - n, f0.stack.len() as int)[q]
                            == f0.stack[f0.stack.len() - n + q]);
                    }
                    assert(fields@ =~= f0.stack.subrange(
                        f0.stack.len() - n,
                        f0.stack.len() as int,
                    ));
                }
                let ghost fields_dv = fields@;
                let p = self.heap.allocate(Value::VariantVal(ci, fields));
                self.frames[fi].stack.truncate(slen - n);
                self.frames[fi].stack.push(p);
                self.frames[fi].ip = ip + 1;
                proof {
                    let f2 = SpecFrame {
                        ip: (f0.ip + 1) as usize,
                        stack: f0.stack.take(f0.stack.len() - c.constructor_fields[
                            ci.0 as int
                        ].len()).push(Ptr(s0.heap.len() as usize)),
                        ..f0
                    };
                    assert(self@.heap == s0.heap.push(SpecValue::Variant(ci, fields_dv)));
                    assert(self@.frames =~= s0.frames.update(s0.frames.len() - 1, f2));
                    self.lemma_alloc_top_replaced(s0, SpecValue::Variant(ci, fields_dv), f2);
                }
                Ok(false)
            },
            crate::program::Instruction::IsVariant(ci) => {
                let slen = self.frames[fi].stack.len();
                if slen == 0 {
                    return Err(VmError::StackUnderflow);
                }
                let p = self.frames[fi].stack[slen - 1];
                proof {
                    assert((p.0 as int) < s0.heap.len());
                }
                let verdict = match self.heap.at(p) {
                    Value::VariantVal(vc, ps) => Some(vc.0 == ci.0),
                    _ => None,
                };
                match verdict {
                    Some(hit) => {
                        let res: i64 = if hit {
                            1
                        } else {
                            0
                        };
                        let np = self.heap.allocate(Value::IntVal(res));
                        self.frames[fi].stack.pop();
                        self.frames[fi].stack.push(np);
                        self.frames[fi].ip = ip + 1;
                        proof {
                            let f2 = SpecFrame {
                                ip: (f0.ip + 1) as usize,
                                stack: f0.stack.drop_last().push(Ptr(s0.heap.len() as usize)),
                                ..f0
                            };
                            assert(self@.heap == s0.heap.push(SpecValue::Int(res)));
                            assert(self@.frames =~= s0.frames.update(s0.frames.len() - 1, f2));
                            self.lemma_alloc_top_replaced(s0, SpecValue::Int(res), f2);
                        }
                        Ok(false)
                    },
                    None => Err(VmError::NotAVariant),
                }
            },
            crate::program::Instruction::Field(ci, k) => {
                let slen = self.frames[fi].stack.len();
                if slen == 0 {
                    return Err(VmError::StackUnderflow);
                }
                let p = self.frames[fi].stack[slen - 1];
                proof {
                    assert((p.0 as int) < s0.heap.len());
                }
                let looked = match self.heap.at(p) {
                    Value::VariantVal(vc, ps) => {
                        if vc.0 != ci.0 {
                            Ok(None)
                        } else if !(k < ps.len()) {
                            Err(VmError::Internal)
                        } else {
                            Ok(Some(ps[k]))
                        }
                    },
                    _ => Err(VmError::NotAVariant),
                };
                match looked {
                    Ok(Some(fp)) => {
                        self.frames[fi].stack.pop();
                        self.frames[fi].stack.push(fp);
                        self.frames[fi].ip = ip + 1;
                        proof {
                            assert(s0.heap[f0.stack.last().0 as int] matches SpecValue::Variant(
                                vc2,
                                ps2,
                            ) && fp == ps2[k as int] && (fp.0 as int) < s0.heap.len()) by {
                                assert(heap_wf(s0.heap));
                                assert(crate::heap::val_wf(
                                    s0.heap[f0.stack.last().0 as int],
                                    f0.stack.last().0 as int,
                                ));
                            }
                            let f2 = SpecFrame {
                                ip: (f0.ip + 1) as usize,
                                stack: f0.stack.drop_last().push(fp),
                                ..f0
                            };
                            assert(self@.frames =~= s0.frames.update(s0.frames.len() - 1, f2));
                            self.lemma_top_replaced(s0, f2);
                        }
                        Ok(false)
                    },
                    Ok(None) => Err(VmError::WrongConstructor),
                    Err(e) => Err(e),
                }
            },
        }
    }

    /// Pushing a fresh allocation onto the top frame's stack and advancing
    /// `ip` matches the specification's allocate-and-push shape.
    proof fn lemma_after_alloc_push(&self, s0: SpecVm, v: SpecValue)
        requires
            s0.frames.len() > 0,
            heap_wf(s0.heap),
            crate::heap::val_wf(v, s0.heap.len() as int),
            forall|i: int|
                0 <= i < s0.frames.len() ==> frame_ptrs_ok(
                    #[trigger] s0.frames[i],
                    s0.heap.len() as int,
                ),
            self@.heap == s0.heap.push(v),
            self@.output == s0.output,
            (self@.frames =~= s0.frames.update(
                s0.frames.len() - 1,
                SpecFrame {
                    ip: (s0.frames.last().ip + 1) as usize,
                    stack: s0.frames.last().stack.push(Ptr(s0.heap.len() as usize)),
                    ..s0.frames.last()
                },
            )),
        ensures
            (self@ == SpecVm {
                heap: s0.heap.push(v),
                frames: s0.frames.update(
                    s0.frames.len() - 1,
                    SpecFrame {
                        ip: (s0.frames.last().ip + 1) as usize,
                        stack: s0.frames.last().stack.push(Ptr(s0.heap.len() as usize)),
                        ..s0.frames.last()
                    },
                ),
                ..s0
            }),
            vm_wf(*self),
    {
        let f2 = SpecFrame {
            ip: (s0.frames.last().ip + 1) as usize,
            stack: s0.frames.last().stack.push(Ptr(s0.heap.len() as usize)),
            ..s0.frames.last()
        };
        self.lemma_alloc_top_replaced(s0, v, f2);
    }

    /// A state whose heap gained one well-formed cell and whose top frame
    /// was replaced by one with pointers into the grown heap is well formed.
    proof fn lemma_alloc_top_replaced(&self, s0: SpecVm, v: SpecValue, f2: SpecFrame)
        requires
            s0.frames.len() > 0,
            heap_wf(s0.heap),
            crate::heap::val_wf(v, s0.heap.len() as int),
            forall|i: int|
                0 <= i < s0.frames.len() ==> frame_ptrs_ok(
                    #[trigger] s0.frames[i],
                    s0.heap.len() as int,
                ),
            frame_ptrs_ok(f2, s0.heap.len() as int + 1),
            self@.heap == s0.heap.push(v),
            self@.output == s0.output,
            self@.frames =~= s0.frames.update(s0.frames.len() - 1, f2),
        ensures
            (self@ == SpecVm {
                heap: s0.heap.push(v),
                frames: s0.frames.update(s0.frames.len() - 1, f2),
                ..s0
            }),
            vm_wf(*self),
    {
        assert(heap_wf(self@.heap)) by {
            assert forall|i: int| 0 <= i < self@.heap.len() implies crate::heap::val_wf(
                #[trigger] self@.heap[i],
                i,
            ) by {
                if i < s0.heap.len() {
                    assert(self@.heap[i] == s0.heap[i]);
                } else {
                    assert(self@.heap[i] == v);
                }
            }
        }
        assert forall|i: int| 0 <= i < self@.frames.len() implies frame_ptrs_ok(
            #[trigger] self@.frames[i],
            self@.heap.len() as int,
        ) by {
            if i < s0.frames.len() - 1 {
                assert(self@.frames[i] == s0.frames[i]);
                assert(frame_ptrs_ok(s0.frames[i], s0.heap.len() as int));
            } else {
                assert(self@.frames[i] == f2);
            }
        }
    }

    /// A state whose top frame was replaced by one with valid pointers,
    /// heap untouched, is well formed.
    proof fn lemma_top_replaced(&self, s0: SpecVm, f2: SpecFrame)
        requires
            s0.frames.len() > 0,
            heap_wf(s0.heap),
            forall|i: int|
                0 <= i < s0.frames.len() ==> frame_ptrs_ok(
                    #[trigger] s0.frames[i],
                    s0.heap.len() as int,
                ),
            frame_ptrs_ok(f2, s0.heap.len() as int),
            self@.heap == s0.heap,
            self@.output == s0.output,
            self@.frames =~= s0.frames.update(s0.frames.len() - 1, f2),
        ensures
            (self@ == SpecVm { frames: s0.frames.update(s0.frames.len() - 1, f2), ..s0 }),
            vm_wf(*self),
    {
        assert forall|i: int| 0 <= i < self@.frames.len() implies frame_ptrs_ok(
            #[trigger] self@.frames[i],
            self@.heap.len() as int,
        ) by {
            if i < s0.frames.len() - 1 {
                assert(self@.frames[i] == s0.frames[i]);
                assert(frame_ptrs_ok(s0.frames[i], s0.heap.len() as int));
            } else {
                assert(self@.frames[i] == f2);
            }
        }
    }
}

/// Popping more operands than the stack holds fails with an underflow.
proof fn lemma_print_fold_underflow(
    h: Seq<SpecValue>,
    st: Seq<Ptr>,
    n: nat,
    out: Seq<Seq<char>>,
)
    requires
        st.len() < n,
        forall|k: int| 0 <= k < st.len() ==> ((#[trigger] st[k]).0 as int) < h.len(),
    ensures
        print_fold(h, st, n, out) == Err::<(Seq<Seq<char>>, Seq<Ptr>), VmError>(
            VmError::StackUnderflow,
        ),
    decreases n,
{
    if st.len() > 0 {
        assert(forall|k: int|
            0 <= k < st.drop_last().len() ==> ((#[trigger] st.drop_last()[k]).0 as int) < h.len());
        lemma_print_fold_underflow(
            h,
            st.drop_last(),
            (n - 1) as nat,
            out.push(spec_render(h[st.last().0 as int])),
        );
    }
}

impl Vm {
    /// The `print` intrinsic: pop and print `argc` operands, one per line.
    #[verifier::rlimit(100)]
    fn exec_print(&mut self, argc: usize) -> (r: Result<bool, VmError>)
        requires
            vm_wf(*old(self)),
            old(self)@.frames.len() > 0,
            old(self)@.frames.last().stack.len() > 0,
            old(self)@.frames.last().ip < usize::MAX,
        ensures
            vm_wf(*final(self)),
            final(self).program@ == old(self).program@,
            final(self).context@ == old(self).context@,
            old(self)@.output.is_prefix_of(final(self)@.output),
            ({
                let res = step_intrinsic(
                    old(self)@,
                    argc,
                    "print"@,
                    old(self)@.frames.last().stack.drop_last(),
                );
                match r {
                    Ok(b) => !b && res == StepResult::Progress(final(self)@),
                    Err(e) => res == StepResult::Fail(e) && final(self)@ == old(self)@,
                }
            }),
    {
        let ghost s0 = self@;
        let ghost f0 = s0.frames.last();
        let ghost st1 = f0.stack.drop_last();
        let fi = self.frames.len() - 1;
        let slen = self.frames[fi].stack.len();
        proof {
            assert(st1.len() == slen - 1);
            assert(forall|k: int|
                0 <= k < st1.len() ==> ((#[trigger] st1[k]).0 as int) < s0.heap.len());
        }
        if slen - 1 < argc {
            proof {
                lemma_print_fold_underflow(s0.heap, st1, argc as nat, Seq::empty());
            }
            return Err(VmError::StackUnderflow);
        }
        let ghost out0 = s0.output;
        proof {
            assert(st1.take(st1.len() as int) =~= st1);
            assert(s0.output.skip(out0.len() as int) =~= Seq::<Seq<char>>::empty());
        }
        let mut k: usize = 0;
        while k < argc
            invariant
                k <= argc,
                argc <= slen - 1,
                slen >= 1,
                vm_wf(*self),
                s0 == old(self)@,
                self.program@ == old(self).program@,
                self.context@ == old(self).context@,
                self@.heap == s0.heap,
                self@.frames == s0.frames,
                fi < self@.frames.len(),
                fi as int == s0.frames.len() - 1,
                f0 == s0.frames.last(),
                slen == f0.stack.len(),
                st1 == f0.stack.drop_last(),
                self@.output.len() == out0.len() + k,
                forall|q: int| 0 <= q < out0.len() ==> self@.output[q] == #[trigger] out0[q],
                print_fold(s0.heap, st1, argc as nat, Seq::empty()) == print_fold(
                    s0.heap,
                    st1.take(st1.len() - k),
                    (argc - k) as nat,
                    self@.output.skip(out0.len() as int),
                ),
            decreases argc - k,
        {
            let ghost rem = st1.take(st1.len() - k);
            let p = self.frames[fi].stack[slen - 2 - k];
            proof {
                assert(rem.last() == st1[st1.len() - k - 1]);
                assert(st1[st1.len() - k - 1] == f0.stack[slen - 2 - k]);
                assert(p == rem.last());
                assert((p.0 as int) < s0.heap.len());
            }
            let ghost out_pre = self@.output;
            let line = render_value(self.heap.at(p));
            self.output.push(line);
            proof {
                assert(self@.output =~= out_pre.push(spec_render(s0.heap[p.0 as int])));
                assert(self@.output.skip(out0.len() as int) =~= out_pre.skip(
                    out0.len() as int,
                ).push(spec_render(s0.heap[p.0 as int])));
                assert(rem.drop_last() =~= st1.take(st1.len() - (k + 1)));
                assert(rem.len() > 0);
            }
            k = k + 1;
        }
        proof {
            assert(st1.take(st1.len() - argc) == st1.take(slen - 1 - argc));
        }
        let ghost lines = self@.output.skip(out0.len() as int);
        self.frames[fi].stack.truncate(slen - 1 - argc);
        let ip0 = self.frames[fi].ip;
        self.frames[fi].ip = ip0 + 1;
        proof {
            assert(print_fold(s0.heap, st1, argc as nat, Seq::empty()) == Ok::<
                (Seq<Seq<char>>, Seq<Ptr>),
                VmError,
            >((lines, st1.take(st1.len() - argc))));
            let f2 = SpecFrame {
                ip: (f0.ip + 1) as usize,
                stack: st1.take(st1.len() - argc),
                ..f0
            };
            assert(self@.frames[fi as int].stack =~= st1.take(st1.len() - argc)) by {
                assert(f0.stack.take(slen - 1 - argc) =~= st1.take(st1.len() - argc));
            }
            assert(self@.frames =~= s0.frames.update(s0.frames.len() - 1, f2));
            assert(self@.output =~= s0.output + lines);
            assert forall|i: int| 0 <= i < self@.frames.len() implies frame_ptrs_ok(
                #[trigger] self@.frames[i],
                self@.heap.len() as int,
            ) by {
                if i < s0.frames.len() - 1 {
                    assert(self@.frames[i] == s0.frames[i]);
                    assert(frame_ptrs_ok(s0.frames[i], s0.heap.len() as int));
                } else {
                    assert(self@.frames[i] == f2);
                    assert(forall|q: int|
                        0 <= q < f2.stack.len() ==> f2.stack[q] == #[trigger] f0.stack[q]);
                }
            }
            assert(self@ == SpecVm {
                frames: s0.frames.update(s0.frames.len() - 1, f2),
                output: s0.output + lines,
                ..s0
            });
        }
        Ok(false)
    }

    /// An arithmetic intrinsic: pop the first operand, fold the operator
    /// over the rest, push the result.
    #[verifier::rlimit(100)]
    fn exec_arith(&mut self, argc: usize, op: ArithOp) -> (r: Result<bool, VmError>)
        requires
            vm_wf(*old(self)),
            old(self)@.frames.len() > 0,
            old(self)@.frames.last().stack.len() > 0,
            old(self)@.frames.last().ip < usize::MAX,
        ensures
            vm_wf(*final(self)),
            final(self).program@ == old(self).program@,
            final(self).context@ == old(self).context@,
            old(self)@.output.is_prefix_of(final(self)@.output),
            ({
                let res = step_arith(
                    old(self)@,
                    argc,
                    op,
                    old(self)@.frames.last().stack.drop_last(),
                );
                match r {
                    Ok(b) => !b && res == StepResult::Progress(final(self)@),
                    Err(e) => res == StepResult::Fail(e) && final(self)@ == old(self)@,
                }
            }),
    {
        let ghost s0 = self@;
        let ghost f0 = s0.frames.last();
        let ghost st1 = f0.stack.drop_last();
        let fi = self.frames.len() - 1;
        let slen = self.frames[fi].stack.len();
        proof {
            assert(st1.len() == slen - 1);
        }
        if slen == 1 {
            proof {
                assert(st1.len() == 0);
            }
            return Err(VmError::StackUnderflow);
        }
        let p0 = self.frames[fi].stack[slen - 2];
        proof {
            assert(p0 == st1.last());
            assert((p0.0 as int) < s0.heap.len());
        }
        let a0: i64;
        match self.heap.at(p0) {
            Value::IntVal(x) => {
                a0 = *x;
            },
            _ => {
                return Err(VmError::NotAnInt);
            },
        }
        let ghost n_total: nat = if argc == 0 {
            0 as nat
        } else {
            (argc - 1) as nat
        };
        let ghost st_init = st1.drop_last();
        let mut acc = a0;
        let mut k: usize = 1;
        proof {
            assert(st_init.take(st_init.len() as int) =~= st_init);
        }
        while k < argc
            invariant
                1 <= k,
                argc >= 1 ==> k <= argc,
                argc == 0 ==> k == 1,
                vm_wf(*self),
                s0 == old(self)@,
                self.program@ == old(self).program@,
                self.context@ == old(self).context@,
                (st1.last().0 as int) < s0.heap.len(),
                s0.heap[st1.last().0 as int] == SpecValue::Int(a0),
                self@ == s0,
                fi < self@.frames.len(),
                fi as int == s0.frames.len() - 1,
                f0 == s0.frames.last(),
                slen == f0.stack.len(),
                slen >= 2,
                st1 == f0.stack.drop_last(),
                st_init == st1.drop_last(),
                st_init.len() == slen - 2,
                n_total == (if argc == 0 { 0 as nat } else { (argc - 1) as nat }),
                k - 1 <= st_init.len(),
                arith_fold(s0.heap, st_init, n_total, a0, op) == arith_fold(
                    s0.heap,
                    st_init.take(st_init.len() - (k - 1)),
                    (n_total - (k - 1)) as nat,
                    acc,
                    op,
                ),
            decreases argc - k,
        {
            let ghost rem = st_init.take(st_init.len() - (k - 1));
            if slen - 2 < k {
                proof {
                    assert(rem.len() == 0);
                }
                return Err(VmError::StackUnderflow);
            }
            let p = self.frames[fi].stack[slen - 2 - k];
            proof {
                assert(rem.len() == st_init.len() - (k - 1));
                assert(rem.last() == st_init[st_init.len() - k]);
                assert(st_init[st_init.len() - k] == f0.stack[slen - 2 - k]);
                assert(p == rem.last());
                assert((p.0 as int) < s0.heap.len());
            }
            let v: i64;
            match self.heap.at(p) {
                Value::IntVal(x) => {
                    v = *x;
                },
                _ => {
                    return Err(VmError::NotAnInt);
                },
            }
            let stepped = match op {
                ArithOp::Add => acc.checked_add(v),
                ArithOp::Sub => acc.checked_sub(v),
                ArithOp::Mul => acc.checked_mul(v),
                ArithOp::Div => acc.checked_div(v),
            };
            match stepped {
                Some(x) => {
                    proof {
                        assert(arith_apply(op, acc, v) == Ok::<i64, VmError>(x));
                        assert(rem.drop_last() =~= st_init.take(st_init.len() - k));
                    }
                    acc = x;
                },
                None => {
                    match op {
                        ArithOp::Div => {
                            if v == 0 {
                                proof {
                                    assert(arith_apply(op, acc, v) == Err::<i64, VmError>(
                                        VmError::DivisionByZero,
                                    ));
                                }
                                return Err(VmError::DivisionByZero);
                            } else {
                                proof {
                                    assert(arith_apply(op, acc, v) == Err::<i64, VmError>(
                                        VmError::ArithmeticOverflow,
                                    ));
                                }
                                return Err(VmError::ArithmeticOverflow);
                            }
                        },
                        _ => {
                            proof {
                                assert(arith_apply(op, acc, v) == Err::<i64, VmError>(
                                    VmError::ArithmeticOverflow,
                                ));
                            }
                            return Err(VmError::ArithmeticOverflow);
                        },
                    }
                },
            }
            k = k + 1;
        }
        let consumed: usize = if argc == 0 {
            1
        } else {
            argc
        };
        proof {
            assert(arith_fold(s0.heap, st_init, n_total, a0, op) == Ok::<(i64, Seq<Ptr>), VmError>(
                (acc, st_init.take(st_init.len() - n_total)),
            ));
            assert(slen - 1 - consumed >= 0);
        }
        self.frames[fi].stack.truncate(slen - 1 - consumed);
        let np = self.heap.allocate(Value::IntVal(acc));
        self.frames[fi].stack.push(np);
        let ip0 = self.frames[fi].ip;
        self.frames[fi].ip = ip0 + 1;
        proof {
            let rest = st_init.take(st_init.len() - n_total);
            let f2 = SpecFrame {
                ip: (f0.ip + 1) as usize,
                stack: rest.push(Ptr(s0.heap.len() as usize)),
                ..f0
            };
            assert(f0.stack.take(slen - 1 - consumed) =~= rest);
            assert(self@.frames[fi as int].stack =~= rest.push(Ptr(s0.heap.len() as usize)));
            assert(self@.frames =~= s0.frames.update(s0.frames.len() - 1, f2));
            assert(frame_ptrs_ok(f2, s0.heap.len() as int + 1)) by {
                assert(forall|q: int|
                    0 <= q < rest.len() ==> rest[q] == #[trigger] f0.stack[q]);
            }
            self.lemma_alloc_top_replaced(s0, SpecValue::Int(acc), f2);
        }
        Ok(false)
    }

    /// A comparison intrinsic: defined only for two operands.
    #[verifier::rlimit(100)]
    fn exec_cmp(&mut self, argc: usize, op: CmpOp) -> (r: Result<bool, VmError>)
        requires
            vm_wf(*old(self)),
            old(self)@.frames.len() > 0,
            old(self)@.frames.last().stack.len() > 0,
            old(self)@.frames.last().ip < usize::MAX,
        ensures
            vm_wf(*final(self)),
            final(self).program@ == old(self).program@,
            final(self).context@ == old(self).context@,
            old(self)@.output.is_prefix_of(final(self)@.output),
            ({
                let res = step_cmp(
                    old(self)@,
                    argc,
                    op,
                    old(self)@.frames.last().stack.drop_last(),
                );
                match r {
                    Ok(b) => !b && res == StepResult::Progress(final(self)@),
                    Err(e) => res == StepResult::Fail(e) && final(self)@ == old(self)@,
                }
            }),
    {
        let ghost s0 = self@;
        let ghost f0 = s0.frames.last();
        let ghost st1 = f0.stack.drop_last();
        let fi = self.frames.len() - 1;
        let slen = self.frames[fi].stack.len();
        proof {
            assert(st1.len() == slen - 1);
        }
        if argc != 2 {
            return Err(VmError::NonBinaryComparison);
        }
        if slen < 3 {
            return Err(VmError::StackUnderflow);
        }
        let pf = self.frames[fi].stack[slen - 2];
        let psnd = self.frames[fi].stack[slen - 3];
        proof {
            assert(pf == st1.last());
            assert(psnd == st1[st1.len() - 2]);
            assert((pf.0 as int) < s0.heap.len());
            assert((psnd.0 as int) < s0.heap.len());
        }
        let a: i64;
        match self.heap.at(pf) {
            Value::IntVal(x) => {
                a = *x;
            },
            _ => {
                return Err(VmError::NotAnInt);
            },
        }
        let b: i64;
        match self.heap.at(psnd) {
            Value::IntVal(x) => {
                b = *x;
            },
            _ => {
                return Err(VmError::NotAnInt);
            },
        }
        let holds = match op {
            CmpOp::Gt => a > b,
            CmpOp::Lt => a < b,
            CmpOp::Ge => a >= b,
            CmpOp::Le => a <= b,
            CmpOp::EqCmp => a == b,
            CmpOp::NeCmp => a != b,
        };
        let res: i64 = if holds {
            1
        } else {
            0
        };
        self.frames[fi].stack.truncate(slen - 3);
        let np = self.heap.allocate(Value::IntVal(res));
        self.frames[fi].stack.push(np);
        let ip0 = self.frames[fi].ip;
        self.frames[fi].ip = ip0 + 1;
        proof {
            assert(holds == cmp_apply(op, a, b));
            let rest = st1.take(st1.len() - 2);
            let f2 = SpecFrame {
                ip: (f0.ip + 1) as usize,
                stack: rest.push(Ptr(s0.heap.len() as usize)),
                ..f0
            };
            assert(f0.stack.take(slen - 3) =~= rest);
            assert(self@.frames[fi as int].stack =~= rest.push(Ptr(s0.heap.len() as usize)));
            assert(self@.frames =~= s0.frames.update(s0.frames.len() - 1, f2));
            assert(frame_ptrs_ok(f2, s0.heap.len() as int + 1)) by {
                assert(forall|q: int|
                    0 <= q < rest.len() ==> rest[q] == #[trigger] f0.stack[q]);
            }
            self.lemma_alloc_top_replaced(s0, SpecValue::Int(res), f2);
        }
        Ok(false)
    }

    /// `Call`: pop the callee; run an intrinsic inline, or open a frame for
    /// a function value with the arguments as its locals in call order.
    #[verifier::rlimit(100)]
    fn exec_call(&mut self, argc: usize) -> (r: Result<bool, VmError>)
        requires
            vm_wf(*old(self)),
            old(self)@.frames.len() > 0,
            old(self)@.frames.last().ip < usize::MAX,
        ensures
            vm_wf(*final(self)),
            final(self).program@ == old(self).program@,
            final(self).context@ == old(self).context@,
            old(self)@.output.is_prefix_of(final(self)@.output),
            (match r {
                Ok(b) => !b && step_call(old(self).program@, old(self)@, argc)
                    == StepResult::Progress(final(self)@),
                Err(e) => step_call(old(self).program@, old(self)@, argc) == StepResult::Fail(e)
                    && final(self)@ == old(self)@,
            }),
    {
        let ghost s0 = self@;
        let ghost prog = self.program@;
        let ghost f0 = s0.frames.last();
        let fi = self.frames.len() - 1;
        let slen = self.frames[fi].stack.len();
        if slen == 0 {
            return Err(VmError::StackUnderflow);
        }
        let pc = self.frames[fi].stack[slen - 1];
        proof {
            assert(pc == f0.stack.last());
            assert((pc.0 as int) < s0.heap.len());
        }
        let ghost st1 = f0.stack.drop_last();
        let callee = crate::heap::clone_value(self.heap.at(pc));
        match callee {
            Value::Intrinsic(name) => {
                proof {
                    assert(s0.heap[pc.0 as int] matches SpecValue::Intr(nm) && nm == name@);
                }
                if crate::lex::str_eq(name.as_str(), "print") {
                    let r = self.exec_print(argc);
                    proof {
                        assert(step_call(prog, s0, argc) == step_intrinsic(s0, argc, name@, st1));
                    }
                    r
                } else if crate::lex::str_eq(name.as_str(), "+") {
                    let r = self.exec_arith(argc, ArithOp::Add);
                    proof {
                        assert(step_call(prog, s0, argc) == step_intrinsic(s0, argc, name@, st1));
                    }
                    r
                } else if crate::lex::str_eq(name.as_str(), "-") {
                    let r = self.exec_arith(argc, ArithOp::Sub);
                    proof {
                        assert(step_call(prog, s0, argc) == step_intrinsic(s0, argc, name@, st1));
                    }
                    r
                } else if crate::lex::str_eq(name.as_str(), "*") {
                    let r = self.exec_arith(argc, ArithOp::Mul);
                    proof {
                        assert(step_call(prog, s0, argc) == step_intrinsic(s0, argc, name@, st1));
                    }
                    r
                } else if crate::lex::str_eq(name.as_str(), "/") {
                    let r = self.exec_arith(argc, ArithOp::Div);
                    proof {
                        assert(step_call(prog, s0, argc) == step_intrinsic(s0, argc, name@, st1));
                    }
                    r
                } else if crate::lex::str_eq(name.as_str(), ">") {
                    let r = self.exec_cmp(argc, CmpOp::Gt);
                    proof {
                        assert(step_call(prog, s0, argc) == step_intrinsic(s0, argc, name@, st1));
                    }
                    r
                } else if crate::lex::str_eq(name.as_str(), "<") {
                    let r = self.exec_cmp(argc, CmpOp::Lt);
                    proof {
                        assert(step_call(prog, s0, argc) == step_intrinsic(s0, argc, name@, st1));
                    }
                    r
                } else if crate::lex::str_eq(name.as_str(), ">=") {
                    let r = self.exec_cmp(argc, CmpOp::Ge);
                    proof {
                        assert(step_call(prog, s0, argc) == step_intrinsic(s0, argc, name@, st1));
                    }
                    r
                } else if crate::lex::str_eq(name.as_str(), "<=") {
                    let r = self.exec_cmp(argc, CmpOp::Le);
                    proof {
                        assert(step_call(prog, s0, argc) == step_intrinsic(s0, argc, name@, st1));
                    }
                    r
                } else if crate::lex::str_eq(name.as_str(), "==") {
                    let r = self.exec_cmp(argc, CmpOp::EqCmp);
                    proof {
                        assert(step_call(prog, s0, argc) == step_intrinsic(s0, argc, name@, st1));
                    }
                    r
                } else if crate::lex::str_eq(name.as_str(), "!=") {
                    let r = self.exec_cmp(argc, CmpOp::NeCmp);
                    proof {
                        assert(step_call(prog, s0, argc) == step_intrinsic(s0, argc, name@, st1));
                    }
                    r
                } else {
                    proof {
                        assert(step_intrinsic(s0, argc, name@, st1) == StepResult::Fail(
                            VmError::UnknownIntrinsicCall,
                        ));
                    }
                    Err(VmError::UnknownIntrinsicCall)
                }
            },
            Value::ModuleFnRef(fidx) => {
                if !(fidx.0 < self.program.len()) {
                    return Err(VmError::Internal);
                }
                if slen - 1 < argc {
                    return Err(VmError::StackUnderflow);
                }
                let mut args: Vec<Ptr> = Vec::new();
                let mut j: usize = 0;
                while j < argc
                    invariant
                        j <= argc,
                        argc <= slen - 1,
                        slen >= 1,
                        s0 == old(self)@,
                        self.program@ == old(self).program@,
                        self.context@ == old(self).context@,
                        self@ == s0,
                        fi < self@.frames.len(),
                        fi as int == s0.frames.len() - 1,
                        f0 == s0.frames.last(),
                        slen == f0.stack.len(),
                        st1 == f0.stack.drop_last(),
                        st1.len() == slen - 1,
                        args@.len() == j,
                        forall|q: int|
                            0 <= q < j ==> args@[q] == #[trigger] f0.stack[slen - 1 - argc + q],
                    decreases argc - j,
                {
                    let p = self.frames[fi].stack[slen - 1 - argc + j];
                    args.push(p);
                    j = j + 1;
                }
                proof {
                    assert forall|q: int|
                        0 <= q < argc implies args@[q] == st1.subrange(
                        st1.len() - argc,
                        st1.len() as int,
                    )[q] by {
                        assert(args@[q] == f0.stack[slen - 1 - argc + q]);
                        assert(st1.subrange(st1.len() - argc, st1.len() as int)[q] == st1[st1.len()
                            - argc + q]);
                        assert(st1[st1.len() - argc + q] == f0.stack[st1.len() - argc + q]);
                    }
                    assert(args@ =~= st1.subrange(st1.len() - argc, st1.len() as int));
                }
                let ghost args_dv = args@;
                self.frames[fi].stack.truncate(slen - 1 - argc);
                let ip0 = self.frames[fi].ip;
                self.frames[fi].ip = ip0 + 1;
                let mut nf = Frame::new(fidx);
                nf.locals = args;
                self.frames.push(nf);
                proof {
                    let caller2 = SpecFrame {
                        ip: (f0.ip + 1) as usize,
                        stack: st1.take(st1.len() - argc),
                        ..f0
                    };
                    let callee2 = SpecFrame {
                        fn_idx: fidx,
                        ip: 0,
                        locals: args_dv,
                        registers: Seq::empty(),
                        stack: Seq::empty(),
                    };
                    assert(f0.stack.take(slen - 1 - argc) =~= st1.take(st1.len() - argc));
                    assert(self@.frames =~= s0.frames.update(s0.frames.len() - 1, caller2).push(
                        callee2,
                    ));
                    assert forall|i: int| 0 <= i < self@.frames.len() implies frame_ptrs_ok(
                        #[trigger] self@.frames[i],
                        self@.heap.len() as int,
                    ) by {
                        if i < s0.frames.len() - 1 {
                            assert(self@.frames[i] == s0.frames[i]);
                            assert(frame_ptrs_ok(s0.frames[i], s0.heap.len() as int));
                        } else if i == s0.frames.len() - 1 {
                            assert(self@.frames[i] == caller2);
                            assert(forall|q: int|
                                0 <= q < caller2.stack.len() ==> caller2.stack[q]
                                    == #[trigger] f0.stack[q]);
                        } else {
                            assert(self@.frames[i] == callee2);
                            assert(forall|q: int|
                                0 <= q < args_dv.len() ==> args_dv[q] == #[trigger] st1[st1.len()
                                    - argc + q]);
                        }
                    }
                    assert(self@ == SpecVm {
                        frames: s0.frames.update(s0.frames.len() - 1, caller2).push(callee2),
                        ..s0
                    });
                }
                Ok(false)
            },
            _ => {
                proof {
                    assert(step_call(prog, s0, argc) == StepResult::Fail(VmError::NotACallable));
                }
                Err(VmError::NotACallable)
            },
        }
    }
}

impl Vm {
    /// Build a machine over a linked program: resolve the entrypoint
    /// module, then its `MAIN`, and push the first frame.
    pub fn new(program: Program, context: Context, entry: &Vec<String>) -> (r: Result<
        Vm,
        VmError,
    >)
        requires
            context_tables_wf(context@),
        ensures
            (match r {
                Ok(vm) => {
                    &&& vm.program@ == program@
                    &&& vm.context@ == context@
                    &&& vm_wf(vm)
                    &&& vm@.heap.len() == 0
                    &&& vm@.output.len() == 0
                    &&& vm@.frames.len() == 1
                    &&& vm@.frames[0].ip == 0
                    &&& vm@.frames[0].locals.len() == 0
                    &&& vm@.frames[0].registers.len() == 0
                    &&& vm@.frames[0].stack.len() == 0
                    &&& ({
                        let m = module_called_spec(context@, entry.deep_view());
                        m is Some && module_fn_called_spec(context@, m.unwrap(), "MAIN"@) == Some(
                            vm@.frames[0].fn_idx.0 as int,
                        )
                    })
                },
                Err(e) => {
                    ||| (e == VmError::EntryModuleNotFound && module_called_spec(
                        context@,
                        entry.deep_view(),
                    ) is None)
                    ||| (e == VmError::EntryMainNotFound && (module_called_spec(
                        context@,
                        entry.deep_view(),
                    ) matches Some(m) && module_fn_called_spec(context@, m, "MAIN"@) is None))
                },
            }),
    {
        let module_idx = match context.module_called(entry) {
            Some(m) => m,
            None => {
                return Err(VmError::EntryModuleNotFound);
            },
        };
        let fn_idx = match context.module_fn_called(module_idx, "MAIN") {
            Some(f) => f,
            None => {
                return Err(VmError::EntryMainNotFound);
            },
        };
        let mut frames: Vec<Frame> = Vec::new();
        frames.push(Frame::new(fn_idx));
        let vm = Vm { program, context, heap: GC::new(), frames, output: Vec::new() };
        proof {
            assert(vm@.frames.len() == 1);
            assert(vm@.frames[0].stack.len() == 0);
            assert(vm@.output =~= Seq::<Seq<char>>::empty());
            assert(heap_wf(vm@.heap));
            assert(frame_ptrs_ok(vm@.frames[0], vm@.heap.len() as int));
        }
        Ok(vm)
    }

    /// Compact the heap over the frames as roots: every root keeps its
    /// tree, and the new heap holds no forwarding cells.
    pub fn collect(&mut self)
        requires
            vm_wf(*old(self)),
        ensures
            vm_wf(*final(self)),
            final(self).program@ == old(self).program@,
            final(self).context@ == old(self).context@,
            final(self)@.output == old(self)@.output,
            final(self)@.frames.len() == old(self)@.frames.len(),
            heap_wf(final(self)@.heap),
            forall|i: int|
                0 <= i < old(self)@.frames.len() ==> frame_trees_match(
                    old(self)@.heap,
                    #[trigger] old(self)@.frames[i],
                    final(self)@.heap,
                    final(self)@.frames[i],
                ),
            final(self)@.heap.len() == roots_reach(
                old(self)@.heap,
                old(self)@.frames,
                old(self)@.frames.len() as int,
            ).len(),
            forall|j: int|
                0 <= j < final(self)@.heap.len() ==> #[trigger] roots_reach(
                    final(self)@.heap,
                    final(self)@.frames,
                    final(self)@.frames.len() as int,
                ).contains(j),
    {
        let mut h = GC::new();
        core::mem::swap(&mut h, &mut self.heap);
        proof {
            assert(h@ == old(self)@.heap);
            assert(forall|i: int|
                0 <= i < self.frames@.len() ==> (#[trigger] self.frames@[i]).deep_view()
                    == old(self)@.frames[i]);
        }
        let new_heap = compact(h, &mut self.frames);
        self.heap = new_heap;
        proof {
            assert(forall|i: int|
                0 <= i < self@.frames.len() ==> (#[trigger] self.frames@[i]).deep_view()
                    == self@.frames[i]);
        }
    }

    /// Drive the machine for at most `fuel` dispatches, compacting once
    /// every `gc_interval` of them. The result is pinned to an iteration
    /// of the dispatch relation: there is a trace of states from the
    /// starting one in which every iteration is a scheduled tree-preserving
    /// collection followed by one `step_spec` step. `Ok(true)` means the
    /// trace finished (no frame was left, or the last step returned the
    /// machine's final clean state), `Err(e)` that the step after the trace
    /// failed with `e`, leaving the machine in that step's state, and
    /// `Ok(false)` that exactly `fuel` steps ran.
    pub fn run(&mut self, fuel: usize, gc_interval: usize) -> (r: Result<bool, VmError>)
        requires
            vm_wf(*old(self)),
            gc_interval >= 1,
        ensures
            vm_wf(*final(self)),
            final(self).program@ == old(self).program@,
            final(self).context@ == old(self).context@,
            old(self)@.output.is_prefix_of(final(self)@.output),
            (match r {
                Ok(true) => final(self)@.frames.len() == 0,
                _ => true,
            }),
            (exists|states: Seq<SpecVm>, mids: Seq<SpecVm>|
                {
                    &&& #[trigger] drive_edges(
                        old(self).program@,
                        old(self).context@,
                        gc_interval as int,
                        states,
                        mids,
                    )
                    &&& states[0] == old(self)@
                    &&& (match r {
                        Ok(false) => states.len() == fuel + 1 && final(self)@ == states.last(),
                        Ok(true) => (final(self)@ == states.last() && final(self)@.frames.len()
                            == 0 && states.len() <= fuel) || (exists|mid: SpecVm|
                            {
                                &&& states.len() <= fuel
                                &&& states.last().frames.len() > 0
                                &&& (if collects_at(gc_interval as int, states.len() - 1) {
                                    collect_rel(states.last(), mid)
                                } else {
                                    mid == states.last()
                                })
                                &&& #[trigger] step_spec(
                                    old(self).program@,
                                    old(self).context@,
                                    mid,
                                ) == StepResult::Finished(final(self)@)
                            }),
                        Err(e) => (exists|mid: SpecVm|
                            {
                                &&& states.len() <= fuel
                                &&& states.last().frames.len() > 0
                                &&& (if collects_at(gc_interval as int, states.len() - 1) {
                                    collect_rel(states.last(), mid)
                                } else {
                                    mid == states.last()
                                })
                                &&& #[trigger] step_spec(
                                    old(self).program@,
                                    old(self).context@,
                                    mid,
                                ) == StepResult::Fail(e)
                                &&& final(self)@ == mid
                            }),
                    })
                }),
    {
        let ghost prog = self.program@;
        let ghost c = self.context@;
        let mut ticks: usize = 0;
        let mut used: usize = 0;
        let ghost mut states: Seq<SpecVm> = seq![self@];
        let ghost mut mids: Seq<SpecVm> = Seq::empty();
        proof {
            assert(drive_edges(prog, c, gc_interval as int, states, mids));
        }
        while used < fuel
            invariant
                vm_wf(*self),
                self.program@ == old(self).program@,
                self.context@ == old(self).context@,
                prog == old(self).program@,
                c == old(self).context@,
                old(self)@.output.is_prefix_of(self@.output),
                gc_interval >= 1,
                ticks < gc_interval,
                used <= fuel,
                ticks as int == ticks_at(gc_interval as int, used as int),
                states.len() == used + 1,
                mids.len() == used,
                states[0] == old(self)@,
                states.last() == self@,
                drive_edges(prog, c, gc_interval as int, states, mids),
            decreases fuel - used,
        {
            if self.frames.len() == 0 {
                proof {
                    assert(self@ == states.last());
                    assert(states.len() <= fuel);
                }
                return Ok(true);
            }
            let ghost pre_iter = self@;
            if ticks >= gc_interval - 1 {
                proof {
                    assert(collects_at(gc_interval as int, used as int));
                }
                self.collect();
                ticks = 0;
            } else {
                proof {
                    assert(!collects_at(gc_interval as int, used as int));
                }
                ticks = ticks + 1;
            }
            let ghost mid = self@;
            proof {
                if collects_at(gc_interval as int, used as int) {
                    assert(collect_rel(pre_iter, mid));
                } else {
                    assert(mid == pre_iter);
                }
                assert(mid.frames.len() > 0);
                assert(ticks as int == ticks_at(gc_interval as int, used + 1));
            }
            match self.step() {
                Ok(true) => {
                    proof {
                        assert(step_spec(prog, c, mid) == StepResult::Finished(self@));
                        assert(states.last() == pre_iter);
                        assert(states.len() - 1 == used);
                        assert(states.len() <= fuel);
                    }
                    return Ok(true);
                },
                Ok(false) => {
                    proof {
                        let old_states = states;
                        let old_mids = mids;
                        states = states.push(self@);
                        mids = mids.push(mid);
                        assert(edge_ok(
                            prog,
                            c,
                            gc_interval as int,
                            states,
                            mids,
                            used as int,
                        )) by {
                            assert(states[used as int] == pre_iter);
                            assert(mids[used as int] == mid);
                            assert(states[used + 1] == self@);
                            assert(step_spec(prog, c, mid) == StepResult::Progress(self@));
                        }
                        assert forall|i: int|
                            0 <= i < mids.len() implies #[trigger] edge_ok(
                            prog,
                            c,
                            gc_interval as int,
                            states,
                            mids,
                            i,
                        ) by {
                            if i < old_mids.len() {
                                assert(edge_ok(
                                    prog,
                                    c,
                                    gc_interval as int,
                                    old_states,
                                    old_mids,
                                    i,
                                ));
                                assert(states[i] == old_states[i]);
                                assert(states[i + 1] == old_states[i + 1]);
                                assert(mids[i] == old_mids[i]);
                            }
                        }
                    }
                },
                Err(e) => {
                    proof {
                        assert(step_spec(prog, c, mid) == StepResult::Fail(e));
                        assert(self@ == mid);
                        assert(states.last() == pre_iter);
                        assert(states.len() - 1 == used);
                        assert(states.len() <= fuel);
                    }
                    return Err(e);
                },
            }
            used = used + 1;
        }
        proof {
            assert(states.len() == fuel + 1);
            assert(states.last() == self@);
        }
        Ok(false)
    }

    /// How many lines have been printed.
    pub fn output_len(&self) -> (r: usize)
        ensures
            r == self@.output.len(),
    {
        self.output.len()
    }

    /// One printed line.
    pub fn output_line(&self, i: usize) -> (r: &String)
        requires
            i < self@.output.len(),
        ensures
            r@ == self@.output[i as int],
    {
        proof {
            assert(self@.output[i as int] == self.output@[i as int]@);
        }
        &self.output[i]
    }

    /// Whether the frame stack is empty: the program has ended.
    pub fn done(&self) -> (r: bool)
        ensures
            r == (self@.frames.len() == 0),
    {
        self.frames.len() == 0
    }

    /// How many cells the heap holds.
    pub fn heap_len(&self) -> (r: usize)
        ensures
            r == self@.heap.len(),
    {
        self.heap.len()
    }

    /// The function the top frame is executing, while any frame is live.
    pub fn current_fn(&self) -> (r: Option<FunctionIndex>)
        ensures
            match r {
                Some(f) => self@.frames.len() > 0 && f == self@.frames.last().fn_idx,
                None => self@.frames.len() == 0,
            },
    {
        if self.frames.len() == 0 {
            None
        } else {
            let fi = self.frames.len() - 1;
            Some(self.frames[fi].fn_idx)
        }
    }

    /// The top frame's next instruction offset.
    pub fn current_ip(&self) -> (r: usize)
        requires
            self@.frames.len() > 0,
        ensures
            r == self@.frames.last().ip,
    {
        let fi = self.frames.len() - 1;
        self.frames[fi].ip
    }
}

/// `Unless` branches exactly on the integer zero: with a value `v` on the
/// stack, `Unless(t)` jumps to `t` if and only if `v` is `Int(0)`; every
/// other value, of any kind, falls through to the next instruction.
pub proof fn lemma_unless_branches_iff(
    prog: Seq<Seq<SpecInstr>>,
    c: SpecContext,
    s: SpecVm,
    tgt: usize,
)
    requires
        s.frames.len() > 0,
        ({
            let f = s.frames.last();
            &&& (f.fn_idx.0 as int) < prog.len()
            &&& (f.ip as int) < prog[f.fn_idx.0 as int].len()
            &&& prog[f.fn_idx.0 as int][f.ip as int] == SpecInstr::Unless(tgt)
            &&& f.stack.len() > 0
            &&& (f.stack.last().0 as int) < s.heap.len()
        }),
    ensures
        ({
            let f = s.frames.last();
            let v = s.heap[f.stack.last().0 as int];
            step_spec(prog, c, s) == StepResult::Progress(
                with_top(
                    s,
                    SpecFrame {
                        ip: if v == SpecValue::Int(0) {
                            tgt
                        } else {
                            (f.ip + 1) as usize
                        },
                        stack: f.stack.drop_last(),
                        ..f
                    },
                ),
            )
        }),
{
}

/// Local writes are in order: a `StoreLocal k` with `k` beyond the next
/// free slot is refused, and accepted exactly when `k` is at most the
/// number of locals written so far.
pub proof fn lemma_store_local_monotonic(
    prog: Seq<Seq<SpecInstr>>,
    c: SpecContext,
    s: SpecVm,
    k: usize,
)
    requires
        s.frames.len() > 0,
        ({
            let f = s.frames.last();
            &&& (f.fn_idx.0 as int) < prog.len()
            &&& (f.ip as int) < prog[f.fn_idx.0 as int].len()
            &&& prog[f.fn_idx.0 as int][f.ip as int] == SpecInstr::StoreLocal(k)
            &&& f.stack.len() > 0
        }),
    ensures
        (k as int) > s.frames.last().locals.len() ==> step_spec(prog, c, s) == StepResult::Fail(
            VmError::OutOfOrderLocal,
        ),
        (k as int) <= s.frames.last().locals.len() ==> step_spec(prog, c, s) is Progress,
{
}

/// Stack balance at a clean return: when a function's last instruction has
/// executed, at most one value may remain; with two or more the machine
/// fails, with one or none the frame pops and execution continues, and the
/// whole program ends cleanly only on an empty final stack.
pub proof fn lemma_return_stack_balance(prog: Seq<Seq<SpecInstr>>, c: SpecContext, s: SpecVm)
    requires
        s.frames.len() > 0,
        ({
            let f = s.frames.last();
            &&& (f.fn_idx.0 as int) < prog.len()
            &&& (f.ip as int) >= prog[f.fn_idx.0 as int].len()
        }),
    ensures
        s.frames.len() > 1 && s.frames.last().stack.len() > 1 ==> step_spec(prog, c, s)
            == StepResult::Fail(VmError::LeakedValues),
        s.frames.len() > 1 && s.frames.last().stack.len() <= 1 ==> step_spec(prog, c, s)
            is Progress,
        s.frames.len() == 1 && s.frames.last().stack.len() == 0 ==> step_spec(prog, c, s)
            is Finished,
        s.frames.len() == 1 && s.frames.last().stack.len() > 0 ==> step_spec(prog, c, s)
            == StepResult::Fail(VmError::TopLevelLeak),
{
}

/// Construct-then-project round trip: `Instantiate(C)` packs the last `N`
/// pushed values as fields in push order, and an immediate `Field(C, i)`
/// pushes back exactly the `i`-th of them.
pub proof fn lemma_instantiate_field_round_trip(
    prog: Seq<Seq<SpecInstr>>,
    c: SpecContext,
    s: SpecVm,
    ci: ConstructorIndex,
    i: usize,
)
    requires
        s.frames.len() > 0,
        s.heap.len() < usize::MAX,
        (ci.0 as int) < c.constructor_fields.len(),
        ({
            let f = s.frames.last();
            let n = c.constructor_fields[ci.0 as int].len();
            &&& (f.fn_idx.0 as int) < prog.len()
            &&& (f.ip as int) < prog[f.fn_idx.0 as int].len()
            &&& prog[f.fn_idx.0 as int][f.ip as int] == SpecInstr::Instantiate(ci)
            &&& f.ip + 1 < prog[f.fn_idx.0 as int].len()
            &&& prog[f.fn_idx.0 as int][f.ip + 1] == SpecInstr::Field(ci, i)
            &&& f.ip + 2 <= usize::MAX
            &&& f.stack.len() >= n
            &&& (i as int) < n
        }),
    ensures
        ({
            let f = s.frames.last();
            let n = c.constructor_fields[ci.0 as int].len();
            let fields = f.stack.subrange(f.stack.len() - n, f.stack.len() as int);
            let p = Ptr(s.heap.len() as usize);
            let s2 = SpecVm {
                heap: s.heap.push(SpecValue::Variant(ci, fields)),
                frames: s.frames.update(
                    s.frames.len() - 1,
                    SpecFrame {
                        ip: (f.ip + 1) as usize,
                        stack: f.stack.take(f.stack.len() - n).push(p),
                        ..f
                    },
                ),
                ..s
            };
            &&& step_spec(prog, c, s) == StepResult::Progress(s2)
            &&& step_spec(prog, c, s2) == StepResult::Progress(
                with_top(
                    s2,
                    SpecFrame {
                        ip: (f.ip + 2) as usize,
                        stack: f.stack.take(f.stack.len() - n).push(
                            f.stack[f.stack.len() - n + i],
                        ),
                        ..f
                    },
                ),
            )
        }),
{
    let f = s.frames.last();
    let n = c.constructor_fields[ci.0 as int].len();
    let fields = f.stack.subrange(f.stack.len() - n, f.stack.len() as int);
    let p = Ptr(s.heap.len() as usize);
    let f2 = SpecFrame {
        ip: (f.ip + 1) as usize,
        stack: f.stack.take(f.stack.len() - n).push(p),
        ..f
    };
    let s2 = SpecVm {
        heap: s.heap.push(SpecValue::Variant(ci, fields)),
        frames: s.frames.update(s.frames.len() - 1, f2),
        ..s
    };
    assert(step_spec(prog, c, s) == StepResult::Progress(s2));
    assert(s2.frames.last() == f2);
    assert(s2.heap[p.0 as int] == SpecValue::Variant(ci, fields));
    assert(f2.stack.last() == p);
    assert(fields[i as int] == f.stack[f.stack.len() - n + i]);
    let f3 = SpecFrame {
        ip: (f.ip + 2) as usize,
        stack: f.stack.take(f.stack.len() - n).push(f.stack[f.stack.len() - n + i]),
        ..f
    };
    assert(f2.stack.drop_last().push(fields[i as int]) =~= f3.stack);
    assert((SpecFrame {
        ip: (f2.ip + 1) as usize,
        stack: f2.stack.drop_last().push(fields[i as int]),
        ..f2
    }) == f3);
    assert(step_spec(prog, c, s2) == StepResult::Progress(with_top(s2, f3)));
}

/// The heap indices one frame's roots reach: everything its locals, filled
/// registers and operand stack point at, directly or through fields.
pub open spec fn frame_reach(h: Seq<SpecValue>, f: SpecFrame) -> Set<int> {
    reach_many(h, f.locals, h.len() as int).union(
        reach_opts(h, f.registers, h.len() as int),
    ).union(reach_many(h, f.stack, h.len() as int))
}

/// The heap indices the first `t` frames' roots reach.
pub open spec fn roots_reach(h: Seq<SpecValue>, frames: Seq<SpecFrame>, t: int) -> Set<int>
    decreases t,
{
    if t <= 0 {
        Set::empty()
    } else {
        roots_reach(h, frames, t - 1).union(frame_reach(h, frames[t - 1]))
    }
}

/// What the roots reach lies inside the heap, so the reachable set is
/// finite and no larger than the heap.
pub proof fn lemma_roots_reach_range(h: Seq<SpecValue>, frames: Seq<SpecFrame>, t: int)
    ensures
        roots_reach(h, frames, t).subset_of(vstd::set_lib::set_int_range(0, h.len() as int)),
        roots_reach(h, frames, t).finite(),
        roots_reach(h, frames, t).len() <= h.len(),
    decreases t,
{
    vstd::set_lib::lemma_int_range(0, h.len() as int);
    if t > 0 {
        lemma_roots_reach_range(h, frames, t - 1);
        crate::heap::lemma_reach_many_range(h, frames[t - 1].locals, h.len() as int);
        crate::heap::lemma_reach_opts_range(h, frames[t - 1].registers, h.len() as int);
        crate::heap::lemma_reach_many_range(h, frames[t - 1].stack, h.len() as int);
    }
    vstd::set_lib::lemma_set_subset_finite(
        vstd::set_lib::set_int_range(0, h.len() as int),
        roots_reach(h, frames, t),
    );
    vstd::set_lib::lemma_len_subset(
        roots_reach(h, frames, t),
        vstd::set_lib::set_int_range(0, h.len() as int),
    );
}

/// Growing the target arena keeps the reach of a frame whose pointers land
/// inside the smaller arena.
pub proof fn lemma_frame_reach_grow(h1: Seq<SpecValue>, h2: Seq<SpecValue>, f: SpecFrame)
    requires
        h1.is_prefix_of(h2),
        frame_ptrs_ok(f, h1.len() as int),
    ensures
        frame_reach(h2, f) == frame_reach(h1, f),
{
    crate::heap::lemma_reach_many_grow(h1, h2, f.locals);
    crate::heap::lemma_reach_opts_grow(h1, h2, f.registers);
    crate::heap::lemma_reach_many_grow(h1, h2, f.stack);
}

pub proof fn lemma_roots_reach_grow(
    h1: Seq<SpecValue>,
    h2: Seq<SpecValue>,
    frames: Seq<SpecFrame>,
    t: int,
)
    requires
        h1.is_prefix_of(h2),
        t <= frames.len(),
        forall|i: int| 0 <= i < t ==> frame_ptrs_ok(#[trigger] frames[i], h1.len() as int),
    ensures
        roots_reach(h2, frames, t) == roots_reach(h1, frames, t),
    decreases t,
{
    if t > 0 {
        lemma_roots_reach_grow(h1, h2, frames, t - 1);
        lemma_frame_reach_grow(h1, h2, frames[t - 1]);
    }
}

/// The reach of the first `t` frames depends on those frames alone.
pub proof fn lemma_roots_reach_agree(
    h: Seq<SpecValue>,
    fr1: Seq<SpecFrame>,
    fr2: Seq<SpecFrame>,
    t: int,
)
    requires
        forall|i: int| 0 <= i < t ==> #[trigger] fr1[i] == fr2[i],
    ensures
        roots_reach(h, fr1, t) == roots_reach(h, fr2, t),
    decreases t,
{
    if t > 0 {
        lemma_roots_reach_agree(h, fr1, fr2, t - 1);
    }
}

/// After one compaction every cell is live, so a second compaction copies
/// exactly the same number of cells: compaction is idempotent in size, and
/// no garbage remains after the first pass.
pub proof fn lemma_collection_idempotent(h1: Seq<SpecValue>, fr1: Seq<SpecFrame>)
    requires
        forall|j: int|
            0 <= j < h1.len() ==> #[trigger] roots_reach(h1, fr1, fr1.len() as int).contains(j),
    ensures
        roots_reach(h1, fr1, fr1.len() as int).len() == h1.len(),
{
    lemma_roots_reach_range(h1, fr1, fr1.len() as int);
    assert(roots_reach(h1, fr1, fr1.len() as int) =~= vstd::set_lib::set_int_range(
        0,
        h1.len() as int,
    ));
    vstd::set_lib::lemma_int_range(0, h1.len() as int);
}

/// Coverage mid-frame: what the finished frames and the current frame's
/// first `j` rewritten locals reach.
pub open spec fn locals_cov(h: Seq<SpecValue>, frames: Seq<SpecFrame>, fi: int, j: int) -> Set<
    int,
> {
    roots_reach(h, frames, fi).union(
        reach_many(h, frames[fi].locals.take(j), h.len() as int),
    )
}

/// Coverage mid-frame: locals done, first `j` register slots rewritten.
pub open spec fn regs_cov(h: Seq<SpecValue>, frames: Seq<SpecFrame>, fi: int, j: int) -> Set<
    int,
> {
    roots_reach(h, frames, fi).union(reach_many(h, frames[fi].locals, h.len() as int)).union(
        reach_opts(h, frames[fi].registers.take(j), h.len() as int),
    )
}

/// Coverage mid-frame: locals and registers done, first `j` stack slots
/// rewritten.
pub open spec fn stack_cov(h: Seq<SpecValue>, frames: Seq<SpecFrame>, fi: int, j: int) -> Set<
    int,
> {
    roots_reach(h, frames, fi).union(reach_many(h, frames[fi].locals, h.len() as int)).union(
        reach_opts(h, frames[fi].registers, h.len() as int),
    ).union(reach_many(h, frames[fi].stack.take(j), h.len() as int))
}

/// Compaction is idempotent in size: a pass leaves only cells reachable
/// from the rewritten roots, so a second pass over its result — whose size
/// is again the number of reachable cells — copies a heap of identical
/// size. No garbage remains after the first pass.
pub proof fn lemma_collect_twice_same_size(h1: Seq<SpecValue>, fr1: Seq<SpecFrame>, len2: int)
    requires
        forall|j: int|
            0 <= j < h1.len() ==> #[trigger] roots_reach(h1, fr1, fr1.len() as int).contains(j),
        len2 == roots_reach(h1, fr1, fr1.len() as int).len(),
    ensures
        len2 == h1.len(),
{
    lemma_collection_idempotent(h1, fr1);
}


/// What one scheduled collection may do to the machine state: the output
/// and the frame count are untouched, every root keeps its tree, and the
/// new heap holds exactly the root-reachable cells, every one of them
/// reachable again. This is precisely what `Vm::collect` promises.
pub open spec fn collect_rel(s1: SpecVm, s2: SpecVm) -> bool {
    &&& s2.output == s1.output
    &&& s2.frames.len() == s1.frames.len()
    &&& heap_wf(s2.heap)
    &&& forall|i: int|
        0 <= i < s2.frames.len() ==> frame_ptrs_ok(#[trigger] s2.frames[i], s2.heap.len() as int)
    &&& forall|i: int|
        0 <= i < s1.frames.len() ==> frame_trees_match(
            s1.heap,
            #[trigger] s1.frames[i],
            s2.heap,
            s2.frames[i],
        )
    &&& s2.heap.len() == roots_reach(s1.heap, s1.frames, s1.frames.len() as int).len()
    &&& forall|j: int|
        0 <= j < s2.heap.len() ==> #[trigger] roots_reach(
            s2.heap,
            s2.frames,
            s2.frames.len() as int,
        ).contains(j)
}

/// The driver's collection counter before dispatch `idx`: it climbs by one
/// per dispatch and resets whenever it reaches `gci - 1`.
pub open spec fn ticks_at(gci: int, idx: int) -> int
    decreases idx,
{
    if idx <= 0 {
        0
    } else if ticks_at(gci, idx - 1) >= gci - 1 {
        0
    } else {
        ticks_at(gci, idx - 1) + 1
    }
}

/// Whether the driver compacts right before dispatch `idx`: exactly when
/// the counter has reached `gci - 1`, that is, once every `gci`
/// dispatches.
pub open spec fn collects_at(gci: int, idx: int) -> bool {
    ticks_at(gci, idx) >= gci - 1
}

/// One driver iteration `i`: from `states[i]`, a collection exactly when
/// one is scheduled (and nothing otherwise) leads to `mids[i]`, and one
/// dispatch step leads on to `states[i + 1]`.
pub open spec fn edge_ok(
    prog: Seq<Seq<SpecInstr>>,
    c: SpecContext,
    gci: int,
    states: Seq<SpecVm>,
    mids: Seq<SpecVm>,
    i: int,
) -> bool {
    &&& states[i].frames.len() > 0
    &&& (if collects_at(gci, i) {
        collect_rel(states[i], mids[i])
    } else {
        mids[i] == states[i]
    })
    &&& step_spec(prog, c, mids[i]) == StepResult::Progress(states[i + 1])
}

/// A run of the driver: `mids.len()` completed iterations, each a
/// scheduled collection followed by one step of the dispatch relation.
pub open spec fn drive_edges(
    prog: Seq<Seq<SpecInstr>>,
    c: SpecContext,
    gci: int,
    states: Seq<SpecVm>,
    mids: Seq<SpecVm>,
) -> bool {
    &&& states.len() == mids.len() + 1
    &&& forall|i: int| 0 <= i < mids.len() ==> #[trigger] edge_ok(prog, c, gci, states, mids, i)
}

} // verus!
