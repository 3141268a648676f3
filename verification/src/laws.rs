//! The store's governing laws, stated over the store model and proved
//! once for every store value and every input.

use crate::items::{default_items, zipped_items};
use crate::store::{read_items, written, StoreView};
use vstd::prelude::*;

verus! {

/// Round trip: immediately after an account writes a pairing of texts and
/// flags, a read of that account observes exactly that pairing, in order.
pub proof fn lemma_round_trip(m: StoreView, a: Seq<char>, texts: Seq<Seq<char>>, flags: Seq<bool>)
    ensures
        read_items(written(m, a, texts, flags), a) == zipped_items(texts, flags),
{
}

/// Default on miss: a read of an account with no entry observes the
/// one-item placeholder list, whatever other accounts have stored.
pub proof fn lemma_default_on_miss(m: StoreView, a: Seq<char>)
    requires
        !m.dom().contains(a),
    ensures
        read_items(m, a) == default_items(),
{
}

/// A write never creates an entry for another account: an account without
/// an entry still has none after someone else writes.
pub proof fn lemma_write_keeps_others_absent(
    m: StoreView,
    a: Seq<char>,
    b: Seq<char>,
    texts: Seq<Seq<char>>,
    flags: Seq<bool>,
)
    requires
        a != b,
        !m.dom().contains(b),
    ensures
        !written(m, a, texts, flags).dom().contains(b),
{
}

/// Overwrite, not merge: after two writes by the same account, a read
/// observes exactly the second pairing, with no residue of the first.
pub proof fn lemma_overwrite(
    m: StoreView,
    a: Seq<char>,
    t1: Seq<Seq<char>>,
    f1: Seq<bool>,
    t2: Seq<Seq<char>>,
    f2: Seq<bool>,
)
    ensures
        read_items(written(written(m, a, t1, f1), a, t2, f2), a) == zipped_items(t2, f2),
{
}

/// Key isolation: a write by one account does not change what a read of
/// any other account observes.
pub proof fn lemma_key_isolation(
    m: StoreView,
    a: Seq<char>,
    b: Seq<char>,
    texts: Seq<Seq<char>>,
    flags: Seq<bool>,
)
    requires
        a != b,
    ensures
        read_items(written(m, a, texts, flags), b) == read_items(m, b),
{
}

/// An explicitly written empty list is observable as empty, and so
/// differs from the one-item placeholder that a never-written account
/// yields.
pub proof fn lemma_empty_write_is_not_a_miss(m: StoreView, a: Seq<char>)
    ensures
        read_items(written(m, a, Seq::empty(), Seq::empty()), a).len() == 0,
        default_items().len() == 1,
{
    assert(zipped_items(Seq::empty(), Seq::empty()) =~= Seq::<(Seq<char>, bool)>::empty());
}

/// Zip truncation: the pairing that a write stores has the length of the
/// shorter input, and pairs equal positions of the two inputs; whatever
/// the longer input holds beyond that is dropped.
pub proof fn lemma_zip_truncate(texts: Seq<Seq<char>>, flags: Seq<bool>)
    ensures
        zipped_items(texts, flags).len() == if texts.len() <= flags.len() {
            texts.len()
        } else {
            flags.len()
        },
        forall|i: int|
            0 <= i < zipped_items(texts, flags).len() ==> zipped_items(texts, flags)[i] == (
            texts[i],
            flags[i],
            ),
{
}

} // verus!
