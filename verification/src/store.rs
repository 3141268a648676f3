//! The account-to-list store: a mapping from account identifier to that
//! account's current item list, with replace-on-write semantics and a
//! placeholder result for accounts that never wrote.

use crate::items::{clone_items, default_items, default_list, item_views, zip_items, zipped_items};
use vstd::prelude::*;

verus! {

/// The mathematical content of the store: each account's character
/// sequence mapped to the views of its stored items.
pub type StoreView = Map<Seq<char>, Seq<(Seq<char>, bool)>>;

/// The store model after account `a` writes the pairing of `texts` and
/// `flags`: the previous list under `a`, if any, is fully replaced.
pub open spec fn written(
    m: StoreView,
    a: Seq<char>,
    texts: Seq<Seq<char>>,
    flags: Seq<bool>,
) -> StoreView {
    m.insert(a, zipped_items(texts, flags))
}

/// What a read of account `a` observes: the stored list, or the one-item
/// placeholder list when `a` has no entry.
pub open spec fn read_items(m: StoreView, a: Seq<char>) -> Seq<(Seq<char>, bool)> {
    if m.dom().contains(a) {
        m[a]
    } else {
        default_items()
    }
}

/// One record of the store: an account identifier and its current list.
type Record = (String, Vec<(String, bool)>);

spec fn record_map(rs: Seq<Record>) -> StoreView
    decreases rs.len(),
{
    if rs.len() == 0 {
        Map::empty()
    } else {
        record_map(rs.drop_last()).insert(rs.last().0@, item_views(rs.last().1@))
    }
}

spec fn distinct_keys(rs: Seq<Record>) -> bool {
    forall|i: int, j: int| 0 <= i < j < rs.len() ==> rs[i].0@ != rs[j].0@
}

proof fn lemma_record_map_dom(rs: Seq<Record>, k: Seq<char>)
    ensures
        record_map(rs).dom().contains(k) <==> (exists|i: int|
            0 <= i < rs.len() && rs[i].0@ == k),
    decreases rs.len(),
{
    if rs.len() > 0 {
        let prefix = rs.drop_last();
        lemma_record_map_dom(prefix, k);
        if rs.last().0@ == k {
            assert(rs[rs.len() - 1].0@ == k);
        } else {
            if record_map(rs).dom().contains(k) {
                let i = choose|i: int| 0 <= i < prefix.len() && prefix[i].0@ == k;
                assert(rs[i].0@ == k);
            }
            if exists|i: int| 0 <= i < rs.len() && rs[i].0@ == k {
                let i = choose|i: int| 0 <= i < rs.len() && rs[i].0@ == k;
                assert(prefix[i].0@ == k);
            }
        }
    }
}

proof fn lemma_distinct_prefix(rs: Seq<Record>)
    requires
        distinct_keys(rs),
        rs.len() > 0,
    ensures
        distinct_keys(rs.drop_last()),
{
    let prefix = rs.drop_last();
    assert forall|i: int, j: int| 0 <= i < j < prefix.len() implies prefix[i].0@ != prefix[j].0@ by {
        assert(prefix[i] == rs[i]);
        assert(prefix[j] == rs[j]);
    }
}

proof fn lemma_record_map_at(rs: Seq<Record>, i: int)
    requires
        distinct_keys(rs),
        0 <= i < rs.len(),
    ensures
        record_map(rs).dom().contains(rs[i].0@),
        record_map(rs)[rs[i].0@] == item_views(rs[i].1@),
    decreases rs.len(),
{
    let prefix = rs.drop_last();
    if i == rs.len() - 1 {
    } else {
        lemma_distinct_prefix(rs);
        lemma_record_map_at(prefix, i);
        assert(prefix[i] == rs[i]);
        assert(rs.last().0@ != rs[i].0@);
    }
}

proof fn lemma_record_map_update(rs: Seq<Record>, i: int, r: Record)
    requires
        distinct_keys(rs),
        0 <= i < rs.len(),
        rs[i].0@ == r.0@,
    ensures
        record_map(rs.update(i, r)) == record_map(rs).insert(r.0@, item_views(r.1@)),
    decreases rs.len(),
{
    let rs2 = rs.update(i, r);
    let prefix = rs.drop_last();
    if i == rs.len() - 1 {
        assert(rs2.drop_last() =~= prefix);
        assert(rs2.last() == r);
        assert(record_map(prefix).insert(rs.last().0@, item_views(rs.last().1@)).insert(
            r.0@,
            item_views(r.1@),
        ) =~= record_map(prefix).insert(r.0@, item_views(r.1@)));
    } else {
        lemma_distinct_prefix(rs);
        assert(prefix[i] == rs[i]);
        lemma_record_map_update(prefix, i, r);
        assert(rs2.drop_last() =~= prefix.update(i, r));
        assert(rs2.last() == rs.last());
        assert(rs.last().0@ != r.0@);
        assert(record_map(prefix).insert(r.0@, item_views(r.1@)).insert(
            rs.last().0@,
            item_views(rs.last().1@),
        ) =~= record_map(prefix).insert(rs.last().0@, item_views(rs.last().1@)).insert(
            r.0@,
            item_views(r.1@),
        ));
    }
}

proof fn lemma_record_map_push(rs: Seq<Record>, r: Record)
    ensures
        record_map(rs.push(r)) == record_map(rs).insert(r.0@, item_views(r.1@)),
{
    assert(rs.push(r).drop_last() =~= rs);
    assert(rs.push(r).last() == r);
}

/// The store that the two public operations act on. Entries are never
/// deleted; a write creates or fully replaces the caller's own entry.
pub struct TodoList {
    records: Vec<Record>,
}

impl View for TodoList {
    type V = StoreView;

    closed spec fn view(&self) -> StoreView {
        record_map(self.records@)
    }
}

impl TodoList {
    #[verifier::type_invariant]
    spec fn wf(self) -> bool {
        distinct_keys(self.records@)
    }

    /// Replace the caller's entire list with the positional pairing of the
    /// given texts and flags. Only the caller's own entry is written.
    pub fn set_todo_list(
        &mut self,
        caller: String,
        todo_list: Vec<String>,
        todo_check_list: Vec<bool>,
    )
        ensures
            final(self)@ == written(old(self)@, caller@, todo_list.deep_view(), todo_check_list@),
    {
        proof {
            use_type_invariant(&*self);
        }
        let ghost k = caller@;
        let items = zip_items(&todo_list, &todo_check_list);
        let ghost v = item_views(items@);
        let mut records: Vec<Record> = Vec::new();
        core::mem::swap(&mut records, &mut self.records);
        let ghost rs0 = records@;
        let n = records.len();
        let mut idx: usize = n;
        let mut i: usize = 0;
        while i < n
            invariant
                i <= n,
                n == rs0.len(),
                records@ == rs0,
                k == caller@,
                idx == n || (idx < i && rs0[idx as int].0@ == k),
                idx == n ==> forall|j: int| 0 <= j < i ==> rs0[j].0@ != k,
            decreases n - i,
        {
            if idx == n && records[i].0 == caller {
                idx = i;
            }
            i += 1;
        }
        if idx < n {
            records[idx] = (caller, items);
            proof {
                let r = records@[idx as int];
                assert(records@ == rs0.update(idx as int, r));
                lemma_record_map_update(rs0, idx as int, r);
                assert forall|a: int, b: int|
                    0 <= a < b < records@.len() implies records@[a].0@ != records@[b].0@ by {
                    assert(rs0[a].0@ != rs0[b].0@);
                }
            }
        } else {
            records.push((caller, items));
            proof {
                let r = records@[n as int];
                assert(records@ == rs0.push(r));
                lemma_record_map_push(rs0, r);
                assert forall|a: int, b: int|
                    0 <= a < b < records@.len() implies records@[a].0@ != records@[b].0@ by {
                    if b < n {
                        assert(rs0[a].0@ != rs0[b].0@);
                    } else {
                        assert(rs0[a].0@ != k);
                    }
                }
            }
        }
        self.records = records;
        proof {
            assert(self@ == old(self)@.insert(k, v));
        }
    }

    /// Read any account's current list, as an owned copy. An account that
    /// never stored a list yields the one-item placeholder list.
    pub fn get_todo_list(&self, account_id: String) -> (r: Vec<(String, bool)>)
        ensures
            item_views(r@) == read_items(self@, account_id@),
    {
        proof {
            use_type_invariant(&*self);
        }
        let n = self.records.len();
        let mut i: usize = 0;
        while i < n
            invariant
                i <= n,
                n == self.records@.len(),
                distinct_keys(self.records@),
                forall|j: int| 0 <= j < i ==> self.records@[j].0@ != account_id@,
            decreases n - i,
        {
            if self.records[i].0 == account_id {
                proof {
                    lemma_record_map_at(self.records@, i as int);
                }
                return clone_items(&self.records[i].1);
            }
            i += 1;
        }
        proof {
            lemma_record_map_dom(self.records@, account_id@);
        }
        default_list()
    }
}

impl Default for TodoList {
    /// A fresh store with no entries at all.
    fn default() -> (r: Self)
        ensures
            r@ == Map::<Seq<char>, Seq<(Seq<char>, bool)>>::empty(),
    {
        let r = TodoList { records: Vec::new() };
        proof {
            assert(r@ =~= Map::<Seq<char>, Seq<(Seq<char>, bool)>>::empty());
        }
        r
    }
}

} // verus!
