//! The capability contract every iterator of this crate satisfies, enabling
//! uniform composition by the merge layers.
use vstd::prelude::*;

pub mod merge_iterator;
pub mod two_merge_iterator;

use crate::order::lex_lt;
use crate::Error;

verus! {

/// A sequence of key-value pairs with strictly ascending, non-empty keys.
pub open spec fn entries_sorted(es: Seq<(Seq<u8>, Seq<u8>)>) -> bool {
    &&& forall|i: int, j: int| 0 <= i < j < es.len() ==> lex_lt(#[trigger] es[i].0, #[trigger] es[j].0)
    &&& forall|i: int| 0 <= i < es.len() ==> (#[trigger] es[i].0).len() > 0
}

/// Index of the first entry whose key is `>= k`, or the length when every
/// key is smaller.
pub open spec fn lower_bound(es: Seq<(Seq<u8>, Seq<u8>)>, k: Seq<u8>) -> int
    decreases es.len(),
{
    if es.len() == 0 {
        0
    } else if !lex_lt(es[0].0, k) {
        0
    } else {
        1 + lower_bound(es.drop_first(), k)
    }
}

/// `lower_bound` is the unique boundary: smaller indices hold smaller keys,
/// and the entry at the boundary (when it exists) is `>= k`.
pub proof fn lemma_lower_bound(es: Seq<(Seq<u8>, Seq<u8>)>, k: Seq<u8>)
    ensures
        0 <= lower_bound(es, k) <= es.len(),
        forall|j: int| 0 <= j < lower_bound(es, k) ==> lex_lt(#[trigger] es[j].0, k),
        lower_bound(es, k) < es.len() ==> !lex_lt(es[lower_bound(es, k)].0, k),
    decreases es.len(),
{
    if es.len() > 0 && lex_lt(es[0].0, k) {
        lemma_lower_bound(es.drop_first(), k);
        let lb = lower_bound(es, k);
        assert forall|j: int| 0 <= j < lb implies lex_lt(#[trigger] es[j].0, k) by {
            if j >= 1 {
                assert(es[j] == es.drop_first()[j - 1]);
            }
        }
        if lb < es.len() {
            assert(es[lb] == es.drop_first()[lb - 1]);
        }
    }
}

/// Any index with the boundary properties is `lower_bound`.
pub proof fn lemma_lower_bound_unique(es: Seq<(Seq<u8>, Seq<u8>)>, k: Seq<u8>, i: int)
    requires
        0 <= i <= es.len(),
        forall|j: int| 0 <= j < i ==> lex_lt(#[trigger] es[j].0, k),
        i < es.len() ==> !lex_lt(es[i].0, k),
    ensures
        i == lower_bound(es, k),
{
    lemma_lower_bound(es, k);
    let lb = lower_bound(es, k);
    if i < lb {
        assert(lex_lt(es[i].0, k));
    } else if lb < i {
        assert(lex_lt(es[lb].0, k));
    }
}

/// Uniform iterator interface: a current entry, validity, and advance.
/// `remaining` is the sequence of entries still to be produced, the current
/// one first; it is empty exactly when the iterator is invalid.  A
/// successful `next` drops the first remaining entry.
pub trait StorageIterator: Sized {
    /// Structural well-formedness the exec methods rely on.
    spec fn inv(&self) -> bool;

    /// Entries from the current position onward.
    spec fn remaining(&self) -> Seq<(Seq<u8>, Seq<u8>)>;

    /// Current key; callable only while an entry is current.
    fn key(&self) -> (k: &[u8])
        requires
            self.inv(),
            self.remaining().len() > 0,
        ensures
            k@ == self.remaining()[0].0,
    ;

    /// Current value; callable only while an entry is current.
    fn value(&self) -> (v: &[u8])
        requires
            self.inv(),
            self.remaining().len() > 0,
        ensures
            v@ == self.remaining()[0].1,
    ;

    /// Whether an entry is current.
    fn is_valid(&self) -> (r: bool)
        requires
            self.inv(),
        ensures
            r == (self.remaining().len() > 0),
    ;

    /// Advances one entry; fails only on an underlying read error, which is
    /// terminal for this iterator.
    fn next(&mut self) -> (r: Result<(), Error>)
        requires
            old(self).inv(),
            old(self).remaining().len() > 0,
        ensures
            final(self).inv(),
            r is Ok ==> final(self).remaining() == old(self).remaining().drop_first(),
    ;
}

/// In a sorted run, everything after a dropped head stays sorted.
pub proof fn lemma_sorted_drop_first(es: Seq<(Seq<u8>, Seq<u8>)>)
    requires
        entries_sorted(es),
        es.len() > 0,
    ensures
        entries_sorted(es.drop_first()),
        forall|i: int| 0 <= i < es.drop_first().len() ==> lex_lt(es[0].0, #[trigger] es.drop_first()[i].0),
{
    assert forall|i: int, j: int| 0 <= i < j < es.drop_first().len() implies lex_lt(
        #[trigger] es.drop_first()[i].0,
        #[trigger] es.drop_first()[j].0,
    ) by {
        assert(es.drop_first()[i] == es[i + 1]);
        assert(es.drop_first()[j] == es[j + 1]);
    }
    assert forall|i: int| 0 <= i < es.drop_first().len() implies (#[trigger] es.drop_first()[
        i
    ].0).len() > 0 && lex_lt(es[0].0, es.drop_first()[i].0) by {
        assert(es.drop_first()[i] == es[i + 1]);
    }
}

} // verus!
