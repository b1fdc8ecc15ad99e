//! Two-way merge over heterogeneously typed iterators: on a key collision
//! the entry of `a` is surfaced and `b`'s colliding entry is skipped.
use vstd::prelude::*;

use super::{entries_sorted, lemma_sorted_drop_first, StorageIterator};
use crate::order::{key_eq, key_lt, lex_lt, lemma_lex_trichotomy};
use crate::Error;

verus! {

/// Merges two iterators of different types; `a` wins every key collision.
pub struct TwoMergeIterator<A: StorageIterator, B: StorageIterator> {
    /// The preferred source.
    pub a: A,
    /// The second source; its colliding entries are discarded.
    pub b: B,
    /// Which source currently surfaces the entry.
    pub use_a: bool,
}

impl<A: StorageIterator, B: StorageIterator> TwoMergeIterator<A, B> {
    pub open spec fn inv(&self) -> bool {
        &&& self.a.inv()
        &&& self.b.inv()
        &&& entries_sorted(self.a.remaining())
        &&& entries_sorted(self.b.remaining())
        &&& !(self.a.remaining().len() > 0 && self.b.remaining().len() > 0
            && self.a.remaining()[0].0 == self.b.remaining()[0].0)
        &&& self.use_a == (self.a.remaining().len() > 0 && (self.b.remaining().len() == 0
            || lex_lt(self.a.remaining()[0].0, self.b.remaining()[0].0)))
    }

    /// Whether the active source surfaces an entry.
    pub open spec fn valid_spec(&self) -> bool {
        if self.use_a {
            self.a.remaining().len() > 0
        } else {
            self.b.remaining().len() > 0
        }
    }

    /// Key of the surfaced entry.
    pub open spec fn cur_key(&self) -> Seq<u8> {
        if self.use_a {
            self.a.remaining()[0].0
        } else {
            self.b.remaining()[0].0
        }
    }

    /// Value of the surfaced entry.
    pub open spec fn cur_value(&self) -> Seq<u8> {
        if self.use_a {
            self.a.remaining()[0].1
        } else {
            self.b.remaining()[0].1
        }
    }

    /// Recomputes which source is active: `a` when it is valid and holds
    /// the strictly smaller key, else `b`.
    fn select_ab(&mut self)
        requires
            old(self).a.inv(),
            old(self).b.inv(),
        ensures
            final(self).a == old(self).a,
            final(self).b == old(self).b,
            final(self).use_a == (old(self).a.remaining().len() > 0 && (old(
                self,
            ).b.remaining().len() == 0 || lex_lt(
                old(self).a.remaining()[0].0,
                old(self).b.remaining()[0].0,
            ))),
    {
        if !self.a.is_valid() {
            self.use_a = false;
            return ;
        }
        if !self.b.is_valid() {
            self.use_a = true;
            return ;
        }
        self.use_a = key_lt(self.a.key(), self.b.key());
    }

    /// Whether both sources currently surface the same key.
    pub open spec fn heads_collide(&self) -> bool {
        &&& self.a.remaining().len() > 0
        &&& self.b.remaining().len() > 0
        &&& self.a.remaining()[0].0 == self.b.remaining()[0].0
    }

    /// While both sources share the current key, advances `b` past it; `a`
    /// is never advanced here.  With strictly ascending keys, at most one
    /// entry of `b` can collide, so `b` moves at most one step.
    fn skip_b(&mut self) -> (r: Result<(), Error>)
        requires
            old(self).a.inv(),
            old(self).b.inv(),
            entries_sorted(old(self).b.remaining()),
        ensures
            final(self).a == old(self).a,
            final(self).use_a == old(self).use_a,
            final(self).b.inv(),
            !old(self).heads_collide() ==> r is Ok,
            r is Ok ==> {
                &&& final(self).b.remaining() == if old(self).heads_collide() {
                    old(self).b.remaining().drop_first()
                } else {
                    old(self).b.remaining()
                }
                &&& entries_sorted(final(self).b.remaining())
                &&& !final(self).heads_collide()
            },
    {
        if self.a.is_valid() {
            let akey = vstd::slice::slice_to_vec(self.a.key());
            while self.b.is_valid() && key_eq(self.b.key(), akey.as_slice())
                invariant
                    akey@ == self.a.remaining()[0].0,
                    self.a == old(self).a,
                    self.use_a == old(self).use_a,
                    self.a.inv(),
                    self.b.inv(),
                    self.a.remaining().len() > 0,
                    entries_sorted(self.b.remaining()),
                    entries_sorted(old(self).b.remaining()),
                    self.b == old(self).b || (old(self).heads_collide() && self.b.remaining()
                        == old(self).b.remaining().drop_first()),
                decreases self.b.remaining().len(),
            {
                proof {
                    if self.b != old(self).b {
                        lemma_sorted_drop_first(old(self).b.remaining());
                        crate::order::lemma_lex_irrefl(akey@);
                        assert(false);
                    }
                    assert(old(self).heads_collide());
                }
                let ghost pre = self.b.remaining();
                match self.b.next() {
                    Ok(()) => {},
                    Err(e) => {
                        return Err(e);
                    },
                }
                proof {
                    lemma_sorted_drop_first(pre);
                }
            }
            proof {
                if self.b == old(self).b && old(self).heads_collide() {
                    assert(false);
                }
                if self.b != old(self).b && self.b.remaining().len() > 0 {
                    lemma_sorted_drop_first(old(self).b.remaining());
                    crate::order::lemma_lex_irrefl(self.b.remaining()[0].0);
                    lemma_lex_trichotomy(self.a.remaining()[0].0, self.b.remaining()[0].0);
                }
            }
        }
        Ok(())
    }

    /// Builds the merge: skips `b`'s entries colliding with `a`'s current
    /// key, then selects the active source.
    pub fn create(a: A, b: B) -> (r: Result<Self, Error>)
        requires
            a.inv(),
            b.inv(),
            entries_sorted(a.remaining()),
            entries_sorted(b.remaining()),
        ensures
            (a.remaining().len() == 0 || b.remaining().len() == 0 || a.remaining()[0].0
                != b.remaining()[0].0) ==> r is Ok,
            r is Ok ==> {
                &&& r->Ok_0.inv()
                &&& r->Ok_0.a == a
                &&& r->Ok_0.b.remaining() == if a.remaining().len() > 0 && b.remaining().len() > 0
                    && a.remaining()[0].0 == b.remaining()[0].0 {
                    b.remaining().drop_first()
                } else {
                    b.remaining()
                }
                &&& (r->Ok_0.valid_spec() <==> (a.remaining().len() > 0
                    || r->Ok_0.b.remaining().len() > 0))
            },
    {
        let mut iter = TwoMergeIterator { a, b, use_a: false };
        match iter.skip_b() {
            Ok(()) => {},
            Err(e) => {
                return Err(e);
            },
        }
        iter.select_ab();
        proof {
            if iter.a.remaining().len() > 0 && iter.b.remaining().len() > 0 {
                lemma_lex_trichotomy(iter.a.remaining()[0].0, iter.b.remaining()[0].0);
            }
        }
        Ok(iter)
    }

    /// Current key; callable only while valid.
    pub fn key(&self) -> (k: &[u8])
        requires
            self.inv(),
            self.valid_spec(),
        ensures
            k@ == self.cur_key(),
    {
        if self.use_a {
            self.a.key()
        } else {
            self.b.key()
        }
    }

    /// Current value; callable only while valid.
    pub fn value(&self) -> (v: &[u8])
        requires
            self.inv(),
            self.valid_spec(),
        ensures
            v@ == self.cur_value(),
    {
        if self.use_a {
            self.a.value()
        } else {
            self.b.value()
        }
    }

    /// Whether the merge surfaces an entry.
    pub fn is_valid(&self) -> (r: bool)
        requires
            self.inv(),
        ensures
            r == self.valid_spec(),
    {
        if self.use_a {
            self.a.is_valid()
        } else {
            self.b.is_valid()
        }
    }

    /// Advances the active source one step, skips `b`'s collision with
    /// `a`'s new key, and re-selects.  Keys surfaced across calls ascend
    /// strictly; any source failure is returned unchanged.
    pub fn next(&mut self) -> (r: Result<(), Error>)
        requires
            old(self).inv(),
            old(self).valid_spec(),
        ensures
            r is Ok ==> final(self).inv(),
            r is Ok && final(self).valid_spec() ==> lex_lt(old(self).cur_key(), final(self).cur_key()),
            r is Err ==> final(self).a.inv() && final(self).b.inv(),
            r is Ok ==> final(self).a.remaining() == if old(self).use_a {
                old(self).a.remaining().drop_first()
            } else {
                old(self).a.remaining()
            },
            r is Ok && !old(self).use_a ==> final(self).a == old(self).a,
            r is Ok ==> final(self).b.remaining() == ({
                let a2 = if old(self).use_a {
                    old(self).a.remaining().drop_first()
                } else {
                    old(self).a.remaining()
                };
                let bm = if old(self).use_a {
                    old(self).b.remaining()
                } else {
                    old(self).b.remaining().drop_first()
                };
                if a2.len() > 0 && bm.len() > 0 && a2[0].0 == bm[0].0 {
                    bm.drop_first()
                } else {
                    bm
                }
            }),
    {
        let ghost ckey = old(self).cur_key();
        if self.use_a {
            let ghost pre = self.a.remaining();
            match self.a.next() {
                Ok(()) => {},
                Err(e) => {
                    return Err(e);
                },
            }
            proof {
                lemma_sorted_drop_first(pre);
            }
        } else {
            let ghost pre = self.b.remaining();
            match self.b.next() {
                Ok(()) => {},
                Err(e) => {
                    return Err(e);
                },
            }
            proof {
                lemma_sorted_drop_first(pre);
            }
        }
        let ghost mid = *self;
        match self.skip_b() {
            Ok(()) => {},
            Err(e) => {
                return Err(e);
            },
        }
        proof {
            assert(self.a.remaining().len() > 0 ==> lex_lt(ckey, self.a.remaining()[0].0)) by {
                if self.a.remaining().len() > 0 && !old(self).use_a {
                    lemma_lex_trichotomy(self.a.remaining()[0].0, ckey);
                }
            }
            assert(self.b.remaining().len() > 0 ==> lex_lt(ckey, self.b.remaining()[0].0)) by {
                if self.b.remaining().len() > 0 {
                    if self.b.remaining() == mid.b.remaining() {
                        if !old(self).use_a {
                        }
                    } else {
                        lemma_sorted_drop_first(mid.b.remaining());
                        if old(self).use_a {
                            crate::order::lemma_lex_trans(
                                ckey,
                                mid.b.remaining()[0].0,
                                self.b.remaining()[0].0,
                            );
                        } else {
                            crate::order::lemma_lex_trans(
                                ckey,
                                mid.b.remaining()[0].0,
                                self.b.remaining()[0].0,
                            );
                        }
                    }
                }
            }
        }
        self.select_ab();
        proof {
            if self.a.remaining().len() > 0 && self.b.remaining().len() > 0 {
                lemma_lex_trichotomy(self.a.remaining()[0].0, self.b.remaining()[0].0);
            }
        }
        Ok(())
    }
}

} // verus!
