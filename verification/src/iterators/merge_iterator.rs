//! K-way merge over homogeneous iterators: the source with the smallest
//! (key, source index) pair is surfaced; duplicate keys are consumed from
//! every other source so the lowest-indexed one wins.
use vstd::prelude::*;

use super::{entries_sorted, StorageIterator};
use crate::order::{key_eq, key_lt, lex_lt, lemma_lex_trichotomy};
use crate::Error;

verus! {

/// A live merge source: its original position in the input list and its
/// iterator, which always holds a current entry.
pub open spec fn src_ok<I: StorageIterator>(s: (usize, I)) -> bool {
    &&& s.1.inv()
    &&& s.1.remaining().len() > 0
    &&& entries_sorted(s.1.remaining())
}

/// Merges multiple iterators of the same type.  When a key occurs in
/// several sources, the one with the smaller index wins.
pub struct MergeIterator<I: StorageIterator> {
    /// Sources not currently surfaced, all valid.
    pub iters: Vec<(usize, I)>,
    /// The source whose head is the merge's current entry.
    pub current: Option<(usize, I)>,
}

impl<I: StorageIterator> MergeIterator<I> {
    pub open spec fn inv(&self) -> bool {
        &&& match self.current {
            Some(c) => src_ok(c) && forall|j: int|
                0 <= j < self.iters@.len() ==> !lex_lt(
                    (#[trigger] self.iters@[j]).1.remaining()[0].0,
                    self.current->Some_0.1.remaining()[0].0,
                ),
            None => self.iters@.len() == 0,
        }
        &&& forall|j: int| 0 <= j < self.iters@.len() ==> src_ok(#[trigger] self.iters@[j])
    }

    /// Whether the merge currently surfaces an entry.
    pub open spec fn valid_spec(&self) -> bool {
        self.current is Some
    }

    /// All live sources: the current one first, then the rest.
    pub open spec fn srcs(&self) -> Seq<(usize, I)> {
        match self.current {
            Some(c) => seq![c] + self.iters@,
            None => self.iters@,
        }
    }

    /// Input index of the source surfacing the current entry.
    pub open spec fn cur_idx(&self) -> int {
        self.current->Some_0.0 as int
    }

    /// Key of the surfaced entry.
    pub open spec fn cur_key(&self) -> Seq<u8> {
        self.current->Some_0.1.remaining()[0].0
    }

    /// Value of the surfaced entry.
    pub open spec fn cur_value(&self) -> Seq<u8> {
        self.current->Some_0.1.remaining()[0].1
    }

    /// Removes the source with the smallest (key, index) pair.
    fn take_min(iters: &mut Vec<(usize, I)>) -> (r: Option<(usize, I)>)
        requires
            forall|j: int| 0 <= j < old(iters)@.len() ==> src_ok(#[trigger] old(iters)@[j]),
        ensures
            old(iters)@.len() == 0 ==> r is None && final(iters)@.len() == 0,
            old(iters)@.len() > 0 ==> {
                &&& r is Some
                &&& src_ok(r->Some_0)
                &&& exists|k: int| 0 <= k < old(iters)@.len() && r->Some_0 == old(iters)@[k]
                &&& final(iters)@.len() == old(iters)@.len() - 1
                &&& forall|j: int|
                    0 <= j < final(iters)@.len() ==> exists|k: int|
                        0 <= k < old(iters)@.len() && #[trigger] final(iters)@[j] == old(iters)@[k]
                &&& forall|j: int|
                    0 <= j < final(iters)@.len() ==> !lex_lt(
                        (#[trigger] final(iters)@[j]).1.remaining()[0].0,
                        r->Some_0.1.remaining()[0].0,
                    )
                &&& forall|k: int|
                    0 <= k < old(iters)@.len() ==> !lex_lt(
                        (#[trigger] old(iters)@[k]).1.remaining()[0].0,
                        r->Some_0.1.remaining()[0].0,
                    )
                &&& forall|k: int|
                    0 <= k < old(iters)@.len() && (#[trigger] old(iters)@[k]).1.remaining()[0].0
                        == r->Some_0.1.remaining()[0].0 ==> r->Some_0.0 <= old(iters)@[k].0
            },
    {
        let n = iters.len();
        if n == 0 {
            return None;
        }
        let mut best: usize = 0;
        let mut j: usize = 1;
        proof {
            crate::order::lemma_lex_irrefl(iters@[0].1.remaining()[0].0);
        }
        while j < n
            invariant
                1 <= j <= n,
                0 <= best < j,
                n == iters@.len(),
                forall|k: int| 0 <= k < iters@.len() ==> src_ok(#[trigger] iters@[k]),
                forall|k: int|
                    0 <= k < j ==> !lex_lt(
                        (#[trigger] iters@[k]).1.remaining()[0].0,
                        iters@[best as int].1.remaining()[0].0,
                    ),
                forall|k: int|
                    0 <= k < j && (#[trigger] iters@[k]).1.remaining()[0].0 == iters@[best as int].1.remaining()[0].0
                        ==> iters@[best as int].0 <= iters@[k].0,
            decreases n - j,
        {
            let cand_key = iters[j].1.key();
            let best_key = iters[best].1.key();
            let smaller = key_lt(cand_key, best_key);
            let equal = key_eq(cand_key, best_key);
            proof {
                lemma_lex_trichotomy(
                    iters@[j as int].1.remaining()[0].0,
                    iters@[best as int].1.remaining()[0].0,
                );
            }
            if smaller || (equal && iters[j].0 < iters[best].0) {
                proof {
                    assert forall|k: int| 0 <= k < j + 1 implies !lex_lt(
                        (#[trigger] iters@[k]).1.remaining()[0].0,
                        iters@[j as int].1.remaining()[0].0,
                    ) && (iters@[k].1.remaining()[0].0 == iters@[j as int].1.remaining()[0].0
                        ==> iters@[j as int].0 <= iters@[k].0) by {
                        if k < j {
                            lemma_lex_trichotomy(
                                iters@[k].1.remaining()[0].0,
                                iters@[best as int].1.remaining()[0].0,
                            );
                            if lex_lt(
                                iters@[k].1.remaining()[0].0,
                                iters@[j as int].1.remaining()[0].0,
                            ) {
                                crate::order::lemma_lex_lt_le(
                                    iters@[k].1.remaining()[0].0,
                                    iters@[j as int].1.remaining()[0].0,
                                    iters@[best as int].1.remaining()[0].0,
                                );
                            }
                        } else {
                            crate::order::lemma_lex_irrefl(iters@[j as int].1.remaining()[0].0);
                        }
                    }
                }
                best = j;
            } else {
                proof {
                    assert forall|k: int| 0 <= k < j + 1 implies !lex_lt(
                        (#[trigger] iters@[k]).1.remaining()[0].0,
                        iters@[best as int].1.remaining()[0].0,
                    ) && (iters@[k].1.remaining()[0].0 == iters@[best as int].1.remaining()[0].0
                        ==> iters@[best as int].0 <= iters@[k].0) by {}
                }
            }
            j += 1;
        }
        let picked = iters.swap_remove(best);
        proof {
            assert(picked == old(iters)@[best as int]);
            assert forall|k: int| 0 <= k < iters@.len() implies (exists|m: int|
                0 <= m < old(iters)@.len() && #[trigger] iters@[k] == old(iters)@[m]) && !lex_lt(
                iters@[k].1.remaining()[0].0,
                picked.1.remaining()[0].0,
            ) && src_ok(iters@[k]) by {
                if k < old(iters)@.len() - 1 && k != best {
                    assert(iters@[k] == old(iters)@[k]);
                } else {
                    assert(iters@[k] == old(iters)@[old(iters)@.len() - 1]);
                }
            }
        }
        Some(picked)
    }

    /// Creates a merge over the given sources, index order preserved.  Only
    /// initially valid sources take part; with no sources, or none valid,
    /// the merge starts invalid and produces nothing.  The surfaced entry
    /// is the minimum current key over the valid sources; among sources
    /// tied at that key the smallest index supplies key and value.
    pub fn create(iters: Vec<Box<I>>) -> (r: Self)
        requires
            forall|i: int| 0 <= i < iters@.len() ==> (#[trigger] iters@[i]).inv(),
            forall|i: int| 0 <= i < iters@.len() ==> entries_sorted((#[trigger] iters@[i]).remaining()),
        ensures
            r.inv(),
            r.valid_spec() == exists|i: int|
                0 <= i < iters@.len() && (#[trigger] iters@[i]).remaining().len() > 0,
            r.valid_spec() ==> {
                &&& 0 <= r.cur_idx() < iters@.len()
                &&& iters@[r.cur_idx()].remaining().len() > 0
                &&& r.cur_key() == iters@[r.cur_idx()].remaining()[0].0
                &&& r.cur_value() == iters@[r.cur_idx()].remaining()[0].1
                &&& forall|i: int|
                    0 <= i < iters@.len() && (#[trigger] iters@[i]).remaining().len() > 0
                        ==> !lex_lt(iters@[i].remaining()[0].0, r.cur_key())
                &&& forall|i: int|
                    0 <= i < iters@.len() && (#[trigger] iters@[i]).remaining().len() > 0
                        && iters@[i].remaining()[0].0 == r.cur_key() ==> r.cur_idx() <= i
            },
            forall|j: int|
                0 <= j < r.srcs().len() ==> {
                    &&& 0 <= (#[trigger] r.srcs()[j]).0 < iters@.len()
                    &&& r.srcs()[j].1 == iters@[r.srcs()[j].0 as int]
                    &&& iters@[r.srcs()[j].0 as int].remaining().len() > 0
                },
    {
        let ghost input = iters@;
        let mut heap: Vec<(usize, I)> = Vec::new();
        let mut idx: usize = 0;
        let mut rest = iters;
        let n = rest.len();
        while idx < n
            invariant
                0 <= idx <= n,
                n == input.len(),
                rest@.len() == n - idx,
                forall|i: int| 0 <= i < rest@.len() ==> rest@[i] == input[idx + i],
                forall|i: int| 0 <= i < input.len() ==> (#[trigger] input[i]).inv(),
                forall|i: int| 0 <= i < input.len() ==> entries_sorted((#[trigger] input[i]).remaining()),
                forall|j: int| 0 <= j < heap@.len() ==> src_ok(#[trigger] heap@[j]),
                forall|j: int|
                    0 <= j < heap@.len() ==> {
                        &&& 0 <= (#[trigger] heap@[j]).0 < idx
                        &&& heap@[j].1 == input[heap@[j].0 as int]
                        &&& input[heap@[j].0 as int].remaining().len() > 0
                    },
                forall|i: int|
                    0 <= i < idx && (#[trigger] input[i]).remaining().len() > 0 ==> exists|k: int|
                        0 <= k < heap@.len() && (heap@[k]).0 == i,
                heap@.len() > 0 <==> exists|i: int|
                    0 <= i < idx && (#[trigger] input[i]).remaining().len() > 0,
            decreases n - idx,
        {
            let bx = rest.remove(0);
            let it = *bx;
            proof {
                assert(it == input[idx as int]);
            }
            if it.is_valid() {
                let ghost heap0 = heap@;
                heap.push((idx, it));
                proof {
                    assert(input[idx as int].remaining().len() > 0);
                    assert forall|i: int|
                        0 <= i < idx + 1 && (#[trigger] input[i]).remaining().len() > 0 implies
                        exists|k: int| 0 <= k < heap@.len() && (heap@[k]).0 == i by {
                        if i < idx {
                            let k0 = choose|k: int| 0 <= k < heap0.len() && (heap0[k]).0 == i;
                            assert(heap@[k0].0 == i);
                        } else {
                            assert(heap@[heap@.len() - 1].0 == i);
                        }
                    }
                }
            }
            idx += 1;
            proof {
                assert forall|i: int| 0 <= i < rest@.len() implies rest@[i] == input[idx + i] by {}
            }
        }
        let ghost heap0 = heap@;
        let current = Self::take_min(&mut heap);
        let r = MergeIterator { iters: heap, current };
        proof {
            if r.valid_spec() {
                assert forall|i: int|
                    0 <= i < input.len() && (#[trigger] input[i]).remaining().len() > 0 implies
                    !lex_lt(input[i].remaining()[0].0, r.cur_key()) && (input[i].remaining()[0].0
                        == r.cur_key() ==> r.cur_idx() <= i) by {
                    let k0 = choose|k: int| 0 <= k < heap0.len() && (heap0[k]).0 == i;
                    assert(heap0[k0].1 == input[i]);
                    assert(!lex_lt(heap0[k0].1.remaining()[0].0, r.cur_key()));
                }
            }
            assert forall|j: int| 0 <= j < r.srcs().len() implies {
                &&& 0 <= (#[trigger] r.srcs()[j]).0 < input.len()
                &&& r.srcs()[j].1 == input[r.srcs()[j].0 as int]
                &&& input[r.srcs()[j].0 as int].remaining().len() > 0
            } by {
                if r.current is Some && j == 0 {
                    let k1 = choose|k: int| 0 <= k < heap0.len() && r.current->Some_0 == heap0[k];
                    assert(r.srcs()[0] == heap0[k1]);
                } else {
                    let jj = if r.current is Some { j - 1 } else { j };
                    assert(r.srcs()[j] == r.iters@[jj]);
                    let k1 = choose|k: int| 0 <= k < heap0.len() && r.iters@[jj] == heap0[k];
                    assert(r.srcs()[j] == heap0[k1]);
                }
            }
        }
        r
    }

    /// Current key; callable only while valid.
    pub fn key(&self) -> (k: &[u8])
        requires
            self.inv(),
            self.valid_spec(),
        ensures
            k@ == self.cur_key(),
    {
        match &self.current {
            Some(c) => c.1.key(),
            None => vstd::pervasive::unreached(),
        }
    }

    /// Current value; callable only while valid.
    pub fn value(&self) -> (v: &[u8])
        requires
            self.inv(),
            self.valid_spec(),
        ensures
            v@ == self.cur_value(),
    {
        match &self.current {
            Some(c) => c.1.value(),
            None => vstd::pervasive::unreached(),
        }
    }

    /// Whether the merge surfaces an entry.
    pub fn is_valid(&self) -> (r: bool)
        requires
            self.inv(),
        ensures
            r == self.valid_spec(),
    {
        self.current.is_some()
    }

    /// Advances past the current key: every source holding that key steps
    /// over it, exhausted sources drop out, and the smallest remaining
    /// (key, index) pair becomes current.  A source failure is terminal for
    /// the whole merge: everything is dropped and the error is returned.
    #[verifier::rlimit(100)]
    pub fn next(&mut self) -> (r: Result<(), Error>)
        requires
            old(self).inv(),
            old(self).valid_spec(),
        ensures
            final(self).inv(),
            r is Ok && final(self).valid_spec() ==> lex_lt(old(self).cur_key(), final(self).cur_key()),
            r is Err ==> !final(self).valid_spec() && final(self).iters@.len() == 0,
            r is Ok ==> (final(self).valid_spec() <==> exists|k: int, e: int|
                0 <= k < old(self).srcs().len() && 0 <= e < old(self).srcs()[k].1.remaining().len()
                    && lex_lt(old(self).cur_key(), (#[trigger] old(self).srcs()[k].1.remaining()[e]).0)),
            r is Ok ==> forall|j: int|
                0 <= j < final(self).srcs().len() ==> exists|k: int|
                    0 <= k < old(self).srcs().len() && (#[trigger] final(self).srcs()[j]).0
                        == old(self).srcs()[k].0 && (final(self).srcs()[j].1.remaining()
                        == old(self).srcs()[k].1.remaining() || final(self).srcs()[j].1.remaining()
                        == old(self).srcs()[k].1.remaining().drop_first()),
    {
        let ghost ckey = old(self).cur_key();
        let ghost old_srcs = old(self).srcs();
        let mut cur_opt: Option<(usize, I)> = None;
        core::mem::swap(&mut self.current, &mut cur_opt);
        let (ci, mut cit) = match cur_opt {
            Some(p) => p,
            None => vstd::pervasive::unreached(),
        };
        proof {
            assert(old_srcs[0] == (ci, cit));
            assert forall|j: int| 1 <= j < old_srcs.len() implies #[trigger] old_srcs[j]
                == old(self).iters@[j - 1] by {}
        }
        let ckey_vec = vstd::slice::slice_to_vec(cit.key());
        let mut survivors: Vec<(usize, I)> = Vec::new();
        let mut rest: Vec<(usize, I)> = Vec::new();
        core::mem::swap(&mut self.iters, &mut rest);
        while rest.len() > 0
            invariant
                ckey_vec@ == ckey,
                old_srcs == old(self).srcs(),
                old_srcs.len() == old(self).iters@.len() + 1,
                forall|j: int| 1 <= j < old_srcs.len() ==> #[trigger] old_srcs[j] == old(self).iters@[j - 1],
                forall|j: int| 0 <= j < old(self).iters@.len() ==> src_ok(#[trigger] old(self).iters@[j]),
                rest@.len() <= old(self).iters@.len(),
                forall|j: int| 0 <= j < rest@.len() ==> rest@[j] == old(self).iters@[j],
                forall|j: int| 0 <= j < rest@.len() ==> src_ok(#[trigger] rest@[j]),
                forall|j: int|
                    0 <= j < rest@.len() ==> !lex_lt((#[trigger] rest@[j]).1.remaining()[0].0, ckey),
                forall|j: int| 0 <= j < survivors@.len() ==> src_ok(#[trigger] survivors@[j]),
                forall|j: int|
                    0 <= j < survivors@.len() ==> lex_lt(
                        ckey,
                        (#[trigger] survivors@[j]).1.remaining()[0].0,
                    ),
                forall|j: int|
                    0 <= j < survivors@.len() ==> exists|k: int|
                        0 <= k < old_srcs.len() && (#[trigger] survivors@[j]).0 == old_srcs[k].0
                            && (survivors@[j].1.remaining() == old_srcs[k].1.remaining()
                            || survivors@[j].1.remaining() == old_srcs[k].1.remaining().drop_first()),
                (exists|k: int, e: int|
                    rest@.len() + 1 <= k < old_srcs.len() && 0 <= e < old_srcs[k].1.remaining().len()
                        && lex_lt(ckey, (#[trigger] old_srcs[k].1.remaining()[e]).0))
                    ==> survivors@.len() > 0,
            decreases rest@.len(),
        {
            let (idx, mut it) = match rest.pop() {
                Some(p) => p,
                None => vstd::pervasive::unreached(),
            };
            let ghost k0: int = rest@.len() as int + 1;
            proof {
                assert((idx, it) == old(self).iters@[k0 - 1]);
                assert(old_srcs[k0] == old(self).iters@[k0 - 1]);
            }
            let same = key_eq(it.key(), ckey_vec.as_slice());
            if same {
                let ghost pre = it.remaining();
                match it.next() {
                    Ok(()) => {},
                    Err(e) => {
                        // a failing source is terminal for the merge
                        self.current = None;
                        self.iters = Vec::new();
                        return Err(e);
                    },
                }
                proof {
                    super::lemma_sorted_drop_first(pre);
                }
                if it.is_valid() {
                    let ghost sv = survivors@;
                    survivors.push((idx, it));
                    proof {
                        assert(survivors@[sv.len() as int] == (idx, it));
                        assert(it.remaining() == old_srcs[k0].1.remaining().drop_first());
                        assert forall|j: int| 0 <= j < survivors@.len() implies exists|k: int|
                            0 <= k < old_srcs.len() && (#[trigger] survivors@[j]).0 == old_srcs[k].0
                                && (survivors@[j].1.remaining() == old_srcs[k].1.remaining()
                                || survivors@[j].1.remaining()
                                == old_srcs[k].1.remaining().drop_first()) by {
                            if j < sv.len() {
                                assert(survivors@[j] == sv[j]);
                                let kk = choose|k: int|
                                    0 <= k < old_srcs.len() && (sv[j]).0 == old_srcs[k].0 && (
                                    sv[j].1.remaining() == old_srcs[k].1.remaining()
                                        || sv[j].1.remaining()
                                        == old_srcs[k].1.remaining().drop_first());
                                assert(0 <= kk < old_srcs.len());
                            }
                        }
                    }
                } else {
                    proof {
                        // this source held only the consumed key
                        assert forall|e: int|
                            0 <= e < old_srcs[k0].1.remaining().len() implies !lex_lt(
                            ckey,
                            (#[trigger] old_srcs[k0].1.remaining()[e]).0,
                        ) by {
                            assert(old_srcs[k0].1.remaining().len() == 1);
                            crate::order::lemma_lex_irrefl(ckey);
                        }
                    }
                }
            } else {
                proof {
                    lemma_lex_trichotomy(it.remaining()[0].0, ckey);
                }
                let ghost sv = survivors@;
                survivors.push((idx, it));
                proof {
                    assert(survivors@[sv.len() as int] == (idx, it));
                    assert(it.remaining() == old_srcs[k0].1.remaining());
                    assert forall|j: int| 0 <= j < survivors@.len() implies exists|k: int|
                            0 <= k < old_srcs.len() && (#[trigger] survivors@[j]).0 == old_srcs[k].0
                                && (survivors@[j].1.remaining() == old_srcs[k].1.remaining()
                                || survivors@[j].1.remaining()
                                == old_srcs[k].1.remaining().drop_first()) by {
                            if j < sv.len() {
                                assert(survivors@[j] == sv[j]);
                                let kk = choose|k: int|
                                    0 <= k < old_srcs.len() && (sv[j]).0 == old_srcs[k].0 && (
                                    sv[j].1.remaining() == old_srcs[k].1.remaining()
                                        || sv[j].1.remaining()
                                        == old_srcs[k].1.remaining().drop_first());
                                assert(0 <= kk < old_srcs.len());
                            }
                        }
                }
            }
        }
        let ghost pre_c = cit.remaining();
        match cit.next() {
            Ok(()) => {},
            Err(e) => {
                self.current = None;
                self.iters = Vec::new();
                return Err(e);
            },
        }
        proof {
            super::lemma_sorted_drop_first(pre_c);
        }
        if cit.is_valid() {
            let ghost sv = survivors@;
            survivors.push((ci, cit));
            proof {
                assert(survivors@[sv.len() as int] == (ci, cit));
                assert(cit.remaining() == old_srcs[0].1.remaining().drop_first());
                assert forall|j: int| 0 <= j < survivors@.len() implies exists|k: int|
                            0 <= k < old_srcs.len() && (#[trigger] survivors@[j]).0 == old_srcs[k].0
                                && (survivors@[j].1.remaining() == old_srcs[k].1.remaining()
                                || survivors@[j].1.remaining()
                                == old_srcs[k].1.remaining().drop_first()) by {
                            if j < sv.len() {
                                assert(survivors@[j] == sv[j]);
                                let kk = choose|k: int|
                                    0 <= k < old_srcs.len() && (sv[j]).0 == old_srcs[k].0 && (
                                    sv[j].1.remaining() == old_srcs[k].1.remaining()
                                        || sv[j].1.remaining()
                                        == old_srcs[k].1.remaining().drop_first());
                                assert(0 <= kk < old_srcs.len());
                            } else {
                                assert(survivors@[j].0 == old_srcs[0].0);
                                assert(survivors@[j].1.remaining()
                                    == old_srcs[0].1.remaining().drop_first());
                            }
                        }
            }
        }
        let ghost sv0 = survivors@;
        let current = Self::take_min(&mut survivors);
        self.iters = survivors;
        self.current = current;
        proof {
            assert forall|j: int| 0 <= j < self.srcs().len() implies exists|k: int|
                0 <= k < old_srcs.len() && (#[trigger] self.srcs()[j]).0 == old_srcs[k].0
                    && (self.srcs()[j].1.remaining() == old_srcs[k].1.remaining()
                    || self.srcs()[j].1.remaining() == old_srcs[k].1.remaining().drop_first()) by {
                let s = if self.current is Some && j == 0 {
                    let k1 = choose|k: int| 0 <= k < sv0.len() && self.current->Some_0 == sv0[k];
                    sv0[k1]
                } else {
                    let jj = if self.current is Some { j - 1 } else { j };
                    let k1 = choose|k: int| 0 <= k < sv0.len() && self.iters@[jj] == sv0[k];
                    sv0[k1]
                };
                assert(self.srcs()[j] == s);
                let k2 = choose|k: int|
                    0 <= k < sv0.len() && s == sv0[k] && 0 <= k < sv0.len();
                let k3 = choose|k: int|
                    0 <= k < old_srcs.len() && s.0 == old_srcs[k].0 && (s.1.remaining()
                        == old_srcs[k].1.remaining() || s.1.remaining()
                        == old_srcs[k].1.remaining().drop_first());
                assert(0 <= k3 < old_srcs.len());
            }
            if self.valid_spec() {
                // forward: the new current is a survivor, above the old key
                let k1 = choose|k: int| 0 <= k < sv0.len() && self.current->Some_0 == sv0[k];
                let k3 = choose|k: int|
                    0 <= k < old_srcs.len() && sv0[k1].0 == old_srcs[k].0 && (sv0[k1].1.remaining()
                        == old_srcs[k].1.remaining() || sv0[k1].1.remaining()
                        == old_srcs[k].1.remaining().drop_first());
                if sv0[k1].1.remaining() == old_srcs[k3].1.remaining() {
                    assert(lex_lt(ckey, old_srcs[k3].1.remaining()[0].0));
                } else {
                    assert(old_srcs[k3].1.remaining().len() >= 2);
                    assert(old_srcs[k3].1.remaining()[1] == old_srcs[k3].1.remaining().drop_first()[0]);
                    assert(lex_lt(ckey, old_srcs[k3].1.remaining()[1].0));
                }
            } else {
                assert(sv0.len() == 0);
                // backward, contrapositive: nothing anywhere sat above ckey
                assert forall|k: int, e: int|
                    0 <= k < old_srcs.len() && 0 <= e < old_srcs[k].1.remaining().len() implies
                    !lex_lt(ckey, (#[trigger] old_srcs[k].1.remaining()[e]).0) by {
                    if k == 0 {
                        assert(old_srcs[0].1.remaining() == pre_c);
                        assert(pre_c.len() == 1);
                        crate::order::lemma_lex_irrefl(ckey);
                    }
                }
            }
        }
        Ok(())
    }
}

} // verus!
