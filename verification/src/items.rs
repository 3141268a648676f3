//! Items of a stored list, their mathematical views, and the positional
//! pairing of the two parallel input vectors (texts and flags).

use vstd::prelude::*;
use vstd::string::StringExecFns;

verus! {

/// The view of a whole item list: each item as its character sequence
/// paired with its completion flag.
pub open spec fn item_views(items: Seq<(String, bool)>) -> Seq<(Seq<char>, bool)> {
    Seq::new(items.len(), |i: int| (items[i].0@, items[i].1))
}

/// The text of the placeholder item returned for an account that never
/// stored a list.
pub open spec fn empty_marker() -> Seq<char> {
    "List is empty"@
}

/// The one-item placeholder list returned on a miss: the marker text with
/// the flag cleared.
pub open spec fn default_items() -> Seq<(Seq<char>, bool)> {
    seq![(empty_marker(), false)]
}

/// Texts paired positionally with flags; the tail of the longer input is
/// dropped, so the result has the length of the shorter one.
pub open spec fn zipped_items(texts: Seq<Seq<char>>, flags: Seq<bool>) -> Seq<(Seq<char>, bool)> {
    Seq::new(
        if texts.len() <= flags.len() {
            texts.len()
        } else {
            flags.len()
        },
        |i: int| (texts[i], flags[i]),
    )
}

/// Pair each text with the flag at the same position, dropping whatever the
/// longer of the two vectors has beyond the length of the shorter one.
pub fn zip_items(texts: &Vec<String>, flags: &Vec<bool>) -> (r: Vec<(String, bool)>)
    ensures
        item_views(r@) == zipped_items(texts.deep_view(), flags@),
{
    let n = if texts.len() <= flags.len() {
        texts.len()
    } else {
        flags.len()
    };
    let mut r: Vec<(String, bool)> = Vec::new();
    let mut i: usize = 0;
    while i < n
        invariant
            i <= n,
            n == zipped_items(texts.deep_view(), flags@).len(),
            n <= texts@.len() && n <= flags@.len(),
            r@.len() == i,
            item_views(r@) =~= zipped_items(texts.deep_view(), flags@).take(i as int),
        decreases n - i,
    {
        let ghost prev = r@;
        let t = texts[i].clone();
        let fl = flags[i];
        let ghost pushed = (t, fl);
        r.push((t, fl));
        proof {
            let zs = zipped_items(texts.deep_view(), flags@);
            assert(r@ == prev.push(pushed));
            assert(pushed.0 == texts@[i as int]);
            assert(texts.deep_view()[i as int] == texts@[i as int]@);
            assert forall|j: int| 0 <= j < i + 1 implies item_views(r@)[j] == zs.take(i + 1)[j] by {
                assert(zs.take(i + 1)[j] == zs[j]);
                if j < i {
                    assert(r@[j] == prev[j]);
                    assert(item_views(prev)[j] == zs.take(i as int)[j]);
                } else {
                    assert(r@[j] == pushed);
                    assert(item_views(r@)[j] == (pushed.0@, pushed.1));
                    assert(zs[j] == (texts.deep_view()[j], flags@[j]));
                }
            }
            assert(item_views(r@) =~= zs.take(i + 1));
        }
        i += 1;
    }
    proof {
        assert(item_views(r@) =~= zipped_items(texts.deep_view(), flags@));
    }
    r
}

/// An owned copy of a list of items, equal to the original element by
/// element.
pub fn clone_items(items: &Vec<(String, bool)>) -> (r: Vec<(String, bool)>)
    ensures
        r@ == items@,
{
    let mut r: Vec<(String, bool)> = Vec::new();
    let mut i: usize = 0;
    let n = items.len();
    while i < n
        invariant
            i <= n,
            n == items@.len(),
            r@.len() == i,
            r@ =~= items@.take(i as int),
        decreases n - i,
    {
        let it = &items[i];
        r.push((it.0.clone(), it.1));
        proof {
            assert(r@ =~= items@.take(i + 1));
        }
        i += 1;
    }
    proof {
        assert(r@ =~= items@);
    }
    r
}

/// Build the placeholder list handed out for an account that never stored
/// a list.
pub fn default_list() -> (r: Vec<(String, bool)>)
    ensures
        item_views(r@) == default_items(),
{
    let mut r: Vec<(String, bool)> = Vec::new();
    r.push((String::from_str("List is empty"), false));
    proof {
        assert(item_views(r@) =~= default_items());
    }
    r
}

} // verus!
