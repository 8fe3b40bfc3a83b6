use vstd::prelude::*;
use crate::index::Indexer;
use crate::index::IndexIterator;
use crate::index::clone_bytes;
use crate::index::entry_views;
use crate::index::has_prefix;
use crate::index::iter_before;
use crate::index::key_lt;
use crate::index::keys_equal;
use crate::index::lemma_lex_irrefl;
use crate::index::lemma_lex_total;
use crate::index::lemma_lex_trans;
use crate::index::lemma_seq_get_insert_other;
use crate::index::lemma_seq_get_match;
use crate::index::lemma_seq_get_no_match;
use crate::index::lemma_seq_get_remove_other;
use crate::index::lemma_seq_get_update_other;
use crate::index::lex_lt;
use crate::index::prefix_matches;
use crate::index::seq_get;
use crate::index::spec_sorted;
use crate::index::spec_sorted_dir;
use crate::log_record::LogRecordPos;
use crate::options::IteratorOptions;

verus! {

/// The baseline index backend: an ordered in-memory map kept as a vector of
/// entries strictly sorted by key, searched by binary search.
pub struct BTree {
    entries: Vec<(Vec<u8>, LogRecordPos)>,
}

/// The first position in sorted `entries` whose key is not below `key`.
fn find_index(entries: &Vec<(Vec<u8>, LogRecordPos)>, key: &Vec<u8>) -> (r: usize)
    requires
        spec_sorted(entry_views(entries@)),
    ensures
        r <= entries@.len(),
        forall|j: int| 0 <= j < r ==> lex_lt(#[trigger] entry_views(entries@)[j].0, key@),
        forall|j: int|
            r <= j < entries@.len() ==> !lex_lt(#[trigger] entry_views(entries@)[j].0, key@),
{
    let ghost ev = entry_views(entries@);
    let mut lo: usize = 0;
    let mut hi: usize = entries.len();
    while lo < hi
        invariant
            lo <= hi <= entries@.len(),
            ev == entry_views(entries@),
            spec_sorted(ev),
            forall|j: int| 0 <= j < lo ==> lex_lt(#[trigger] ev[j].0, key@),
            forall|j: int| hi <= j < ev.len() ==> !lex_lt(#[trigger] ev[j].0, key@),
        decreases hi - lo,
    {
        let mid = lo + (hi - lo) / 2;
        if key_lt(&entries[mid].0, key) {
            proof {
                assert forall|j: int| 0 <= j < mid + 1 implies lex_lt(#[trigger] ev[j].0, key@) by {
                    if j < mid {
                        lemma_lex_trans(ev[j].0, ev[mid as int].0, key@);
                    }
                }
            }
            lo = mid + 1;
        } else {
            proof {
                assert forall|j: int| mid <= j < ev.len() implies !lex_lt(
                    #[trigger] ev[j].0,
                    key@,
                ) by {
                    if j > mid && lex_lt(ev[j].0, key@) {
                        lemma_lex_trans(ev[mid as int].0, ev[j].0, key@);
                    }
                }
            }
            hi = mid;
        }
    }
    lo
}

impl BTree {
    /// An empty ordered index.
    pub fn new() -> (r: Self)
        ensures
            r.wf(),
            r.view() == Seq::<(Seq<u8>, LogRecordPos)>::empty(),
    {
        let r = BTree { entries: Vec::new() };
        proof {
            assert(r.view() =~= Seq::<(Seq<u8>, LogRecordPos)>::empty());
        }
        r
    }

    /// Takes a consistent snapshot of the index at call time and returns a
    /// cursor over it: ascending by key, or descending when
    /// `options.reverse`; entries failing the prefix filter are skipped
    /// during `next`. Later index mutations do not affect the snapshot.
    #[verifier::loop_isolation(false)]
    pub fn iterator(&self, options: IteratorOptions) -> (it: BTreeIterator)
        requires
            self.wf(),
        ensures
            it.wf(),
            it.cursor() == 0,
            it.prefix() == options.prefix@,
            it.descending() == options.reverse,
            it.snapshot().len() == self.view().len(),
            !options.reverse ==> it.snapshot() == self.view(),
            options.reverse ==> forall|i: int|
                0 <= i < self.view().len() ==> #[trigger] it.snapshot()[i] == self.view()[
                    self.view().len() - 1 - i],
    {
        let ghost ov = self.view();
        let n = self.entries.len();
        let mut items: Vec<(Vec<u8>, LogRecordPos)> = Vec::new();
        if !options.reverse {
            let mut i: usize = 0;
            while i < n
                invariant
                    i <= n,
                    n == self.entries@.len(),
                    ov == entry_views(self.entries@),
                    items@.len() == i,
                    forall|j: int| 0 <= j < i ==> #[trigger] entry_views(items@)[j] == ov[j],
                decreases n - i,
            {
                let e = &self.entries[i];
                let ck = clone_bytes(&e.0);
                let ghost pitems = items@;
                items.push((ck, e.1));
                i = i + 1;
                proof {
                    assert forall|j: int| 0 <= j < i implies #[trigger] entry_views(items@)[j]
                        == ov[j] by {
                        assert(entry_views(items@)[j] == (items@[j].0@, items@[j].1));
                        assert(ov[j] == (self.entries@[j].0@, self.entries@[j].1));
                        if j < i - 1 {
                            assert(items@[j] == pitems[j]);
                            assert(entry_views(pitems)[j] == (pitems[j].0@, pitems[j].1));
                        } else {
                            assert(items@[j].0@ == self.entries@[j].0@);
                            assert(items@[j].1 == self.entries@[j].1);
                        }
                    }
                }
            }
            proof {
                assert(entry_views(items@) =~= ov);
            }
        } else {
            let mut i: usize = 0;
            while i < n
                invariant
                    i <= n,
                    n == self.entries@.len(),
                    ov == entry_views(self.entries@),
                    items@.len() == i,
                    forall|j: int|
                        0 <= j < i ==> #[trigger] entry_views(items@)[j] == ov[ov.len() - 1 - j],
                decreases n - i,
            {
                let e = &self.entries[n - 1 - i];
                let ck = clone_bytes(&e.0);
                let ghost pitems = items@;
                items.push((ck, e.1));
                i = i + 1;
                proof {
                    assert forall|j: int| 0 <= j < i implies #[trigger] entry_views(items@)[j]
                        == ov[ov.len() - 1 - j] by {
                        assert(entry_views(items@)[j] == (items@[j].0@, items@[j].1));
                        assert(ov[ov.len() - 1 - j] == (
                            self.entries@[ov.len() - 1 - j].0@,
                            self.entries@[ov.len() - 1 - j].1,
                        ));
                        if j < i - 1 {
                            assert(items@[j] == pitems[j]);
                            assert(entry_views(pitems)[j] == (pitems[j].0@, pitems[j].1));
                        } else {
                            assert(items@[j].0@ == self.entries@[ov.len() - 1 - j].0@);
                            assert(items@[j].1 == self.entries@[ov.len() - 1 - j].1);
                        }
                    }
                }
            }
        }
        let it = BTreeIterator { items, curr_index: 0, options };
        proof {
            if it.descending() {
                assert forall|i: int, j: int|
                    0 <= i < j < it.snapshot().len() implies iter_before(
                    true,
                    #[trigger] it.snapshot()[i].0,
                    #[trigger] it.snapshot()[j].0,
                ) by {
                    assert(it.snapshot()[i] == ov[ov.len() - 1 - i]);
                    assert(it.snapshot()[j] == ov[ov.len() - 1 - j]);
                }
            }
        }
        it
    }
}

impl Indexer for BTree {
    closed spec fn view(&self) -> Seq<(Seq<u8>, LogRecordPos)> {
        entry_views(self.entries@)
    }

    closed spec fn wf(&self) -> bool {
        spec_sorted(entry_views(self.entries@))
    }

    fn put(&mut self, key: Vec<u8>, pos: LogRecordPos) -> (r: Option<LogRecordPos>) {
        let ghost ov = entry_views(self.entries@);
        let ghost kv = (key@, pos);
        proof {
            lemma_lex_irrefl(key@);
        }
        let idx = find_index(&self.entries, &key);
        let ghost gidx = idx as int;
        if idx < self.entries.len() && keys_equal(&self.entries[idx].0, &key) {
            let old_pos = self.entries[idx].1;
            self.entries.remove(idx);
            self.entries.insert(idx, (key, pos));
            proof {
                let nv = entry_views(self.entries@);
                assert(nv =~= ov.update(gidx, kv));
                assert forall|i: int, j: int| 0 <= i < j < nv.len() implies lex_lt(
                    #[trigger] nv[i].0,
                    #[trigger] nv[j].0,
                ) by {
                    assert(nv[i].0 == ov[i].0 && nv[j].0 == ov[j].0);
                }
                lemma_seq_get_match(ov, key@, gidx);
                lemma_seq_get_match(nv, key@, gidx);
                assert forall|k: Seq<u8>| k != key@ implies seq_get(nv, k) == seq_get(ov, k) by {
                    lemma_seq_get_update_other(ov, gidx, kv, k);
                }
            }
            Some(old_pos)
        } else {
            self.entries.insert(idx, (key, pos));
            proof {
                let nv = entry_views(self.entries@);
                assert(nv =~= ov.insert(gidx, kv));
                assert forall|j: int| gidx <= j < ov.len() implies ov[j].0 != key@ && lex_lt(
                    key@,
                    #[trigger] ov[j].0,
                ) by {
                    if j > gidx && ov[j].0 == key@ {
                        assert(lex_lt(ov[gidx].0, ov[j].0));
                    }
                    if !lex_lt(key@, ov[j].0) {
                        lemma_lex_total(ov[j].0, key@);
                    }
                }
                assert forall|i: int, j: int| 0 <= i < j < nv.len() implies lex_lt(
                    #[trigger] nv[i].0,
                    #[trigger] nv[j].0,
                ) by {
                    if i < gidx {
                        assert(nv[i] == ov[i]);
                    }
                    if j > gidx {
                        assert(nv[j] == ov[j - 1]);
                    }
                }
                assert forall|i: int| 0 <= i < ov.len() implies (#[trigger] ov[i]).0 != key@ by {
                    if i < gidx {
                        if ov[i].0 == key@ {
                            assert(lex_lt(key@, key@));
                        }
                    }
                }
                lemma_seq_get_no_match(ov, key@);
                lemma_seq_get_match(nv, key@, gidx);
                assert forall|k: Seq<u8>| k != key@ implies seq_get(nv, k) == seq_get(ov, k) by {
                    lemma_seq_get_insert_other(ov, gidx, kv, k);
                }
            }
            None
        }
    }

    fn get(&self, key: Vec<u8>) -> (r: Option<LogRecordPos>) {
        let ghost ov = entry_views(self.entries@);
        proof {
            lemma_lex_irrefl(key@);
        }
        let idx = find_index(&self.entries, &key);
        let ghost gidx = idx as int;
        if idx < self.entries.len() && keys_equal(&self.entries[idx].0, &key) {
            proof {
                lemma_seq_get_match(ov, key@, gidx);
            }
            Some(self.entries[idx].1)
        } else {
            proof {
                assert forall|i: int| 0 <= i < ov.len() implies (#[trigger] ov[i]).0 != key@ by {
                    if i < gidx && ov[i].0 == key@ {
                        assert(lex_lt(key@, key@));
                    }
                    if i > gidx && ov[i].0 == key@ {
                        assert(lex_lt(ov[gidx].0, ov[i].0));
                    }
                }
                lemma_seq_get_no_match(ov, key@);
            }
            None
        }
    }

    fn delete(&mut self, key: Vec<u8>) -> (r: Option<LogRecordPos>) {
        let ghost ov = entry_views(self.entries@);
        proof {
            lemma_lex_irrefl(key@);
        }
        let idx = find_index(&self.entries, &key);
        let ghost gidx = idx as int;
        if idx < self.entries.len() && keys_equal(&self.entries[idx].0, &key) {
            let removed = self.entries.remove(idx);
            proof {
                let nv = entry_views(self.entries@);
                assert(nv =~= ov.remove(gidx));
                lemma_seq_get_match(ov, key@, gidx);
                assert forall|i: int, j: int| 0 <= i < j < nv.len() implies lex_lt(
                    #[trigger] nv[i].0,
                    #[trigger] nv[j].0,
                ) by {
                    if i < gidx {
                        assert(nv[i] == ov[i]);
                    }
                    if j >= gidx {
                        assert(nv[j] == ov[j + 1]);
                    }
                }
                assert forall|i: int| 0 <= i < nv.len() implies (#[trigger] nv[i]).0 != key@ by {
                    if i < gidx {
                        if ov[i].0 == key@ {
                            assert(lex_lt(key@, key@));
                        }
                    }
                    if i >= gidx {
                        assert(nv[i] == ov[i + 1]);
                        if ov[i + 1].0 == key@ {
                            assert(lex_lt(ov[gidx].0, ov[i + 1].0));
                        }
                    }
                }
                lemma_seq_get_no_match(nv, key@);
                assert forall|k: Seq<u8>| k != key@ implies seq_get(nv, k) == seq_get(ov, k) by {
                    lemma_seq_get_remove_other(ov, gidx, k);
                }
            }
            Some(removed.1)
        } else {
            proof {
                assert forall|i: int| 0 <= i < ov.len() implies (#[trigger] ov[i]).0 != key@ by {
                    if i < gidx && ov[i].0 == key@ {
                        assert(lex_lt(key@, key@));
                    }
                    if i > gidx && ov[i].0 == key@ {
                        assert(lex_lt(ov[gidx].0, ov[i].0));
                    }
                }
                lemma_seq_get_no_match(ov, key@);
            }
            None
        }
    }

    fn list_keys(&self) -> (r: Vec<Vec<u8>>) {
        let ghost ov = entry_views(self.entries@);
        let mut keys: Vec<Vec<u8>> = Vec::new();
        let mut i: usize = 0;
        while i < self.entries.len()
            invariant
                i <= self.entries@.len(),
                ov == entry_views(self.entries@),
                keys@.len() == i,
                forall|j: int| 0 <= j < i ==> (#[trigger] keys@[j])@ == ov[j].0,
            decreases self.entries@.len() - i,
        {
            keys.push(clone_bytes(&self.entries[i].0));
            i = i + 1;
        }
        keys
    }
}

/// A snapshot cursor over the ordered index: the entries copied out at
/// creation time (reversed when descending), the cursor, and the options.
pub struct BTreeIterator {
    items: Vec<(Vec<u8>, LogRecordPos)>,
    curr_index: usize,
    options: IteratorOptions,
}

impl IndexIterator for BTreeIterator {
    closed spec fn snapshot(&self) -> Seq<(Seq<u8>, LogRecordPos)> {
        entry_views(self.items@)
    }

    closed spec fn cursor(&self) -> int {
        self.curr_index as int
    }

    closed spec fn prefix(&self) -> Seq<u8> {
        self.options.prefix@
    }

    closed spec fn descending(&self) -> bool {
        self.options.reverse
    }

    closed spec fn wf(&self) -> bool {
        spec_sorted_dir(self.options.reverse, entry_views(self.items@))
            && self.curr_index <= self.items@.len()
    }

    fn rewind(&mut self) {
        self.curr_index = 0;
    }

    fn seek(&mut self, key: Vec<u8>) {
        let ghost snap = entry_views(self.items@);
        let desc = self.options.reverse;
        let mut lo: usize = 0;
        let mut hi: usize = self.items.len();
        while lo < hi
            invariant
                lo <= hi <= self.items@.len(),
                snap == entry_views(self.items@),
                desc == self.options.reverse,
                spec_sorted_dir(desc, snap),
                forall|j: int| 0 <= j < lo ==> iter_before(desc, #[trigger] snap[j].0, key@),
                forall|j: int| hi <= j < snap.len() ==> !iter_before(desc, #[trigger] snap[j].0, key@),
            decreases hi - lo,
        {
            let mid = lo + (hi - lo) / 2;
            let is_before = if desc {
                key_lt(&key, &self.items[mid].0)
            } else {
                key_lt(&self.items[mid].0, &key)
            };
            if is_before {
                proof {
                    assert forall|j: int| 0 <= j < mid + 1 implies iter_before(
                        desc,
                        #[trigger] snap[j].0,
                        key@,
                    ) by {
                        if j < mid {
                            if desc {
                                lemma_lex_trans(key@, snap[mid as int].0, snap[j].0);
                            } else {
                                lemma_lex_trans(snap[j].0, snap[mid as int].0, key@);
                            }
                        }
                    }
                }
                lo = mid + 1;
            } else {
                proof {
                    assert forall|j: int| mid <= j < snap.len() implies !iter_before(
                        desc,
                        #[trigger] snap[j].0,
                        key@,
                    ) by {
                        if j > mid && iter_before(desc, snap[j].0, key@) {
                            if desc {
                                lemma_lex_trans(key@, snap[j].0, snap[mid as int].0);
                            } else {
                                lemma_lex_trans(snap[mid as int].0, snap[j].0, key@);
                            }
                        }
                    }
                }
                hi = mid;
            }
        }
        self.curr_index = lo;
    }

    #[verifier::loop_isolation(false)]
    fn next(&mut self) -> (r: Option<(Vec<u8>, LogRecordPos)>) {
        let ghost snap = entry_views(self.items@);
        let ghost start = self.curr_index as int;
        let ghost gprefix = self.options.prefix@;
        let ghost gdesc = self.options.reverse;
        if self.curr_index >= self.items.len() {
            return None;
        }
        while self.curr_index < self.items.len()
            invariant
                start <= self.curr_index as int <= self.items@.len(),
                snap == entry_views(self.items@),
                gprefix == self.options.prefix@,
                gdesc == self.options.reverse,
                spec_sorted_dir(gdesc, snap),
                forall|j: int|
                    start <= j < self.curr_index as int ==> !prefix_matches(
                        self.options.prefix@,
                        #[trigger] snap[j].0,
                    ),
            decreases self.items@.len() - self.curr_index,
        {
            let idx = self.curr_index;
            self.curr_index = idx + 1;
            let e = &self.items[idx];
            if self.options.prefix.len() == 0 || has_prefix(&e.0, &self.options.prefix) {
                let rk = clone_bytes(&e.0);
                let rv = e.1;
                proof {
                    assert(snap[idx as int] == (rk@, rv));
                    if self.options.prefix@.len() == 0 {
                        assert(rk@.take(0) =~= self.options.prefix@);
                    }
                    assert(prefix_matches(gprefix, rk@));
                    assert(exists|i: int|
                        start <= i < old(self).snapshot().len() && old(self).snapshot()[i] == (
                        rk@,
                        rv,
                        ) && prefix_matches(old(self).prefix(), rk@) && self.curr_index as int == i
                            + 1 && (forall|j: int|
                            start <= j < i ==> !prefix_matches(
                                old(self).prefix(),
                                #[trigger] old(self).snapshot()[j].0,
                            ))) by {
                        assert(start <= idx as int && (idx as int) < old(self).snapshot().len()
                            && old(self).snapshot()[idx as int] == (rk@, rv) && prefix_matches(
                            old(self).prefix(),
                            rk@,
                        ) && self.curr_index as int == idx as int + 1 && (forall|j: int|
                            start <= j < idx as int ==> !prefix_matches(
                                old(self).prefix(),
                                #[trigger] old(self).snapshot()[j].0,
                            )));
                    }
                }
                return Some((rk, rv));
            }
        }
        None
    }
}

/// Overwrite semantics of the index: putting `d1` then `d2` under one key
/// returns `Some(d1)` the second time and leaves the key at `d2`; deleting
/// it returns `Some(d2)` and removes it; a second delete returns `None`.
/// Every other key is untouched throughout. Stated over the transitions
/// that `put` and `delete` ensure.
pub proof fn lemma_index_overwrite_semantics(
    v0: Seq<(Seq<u8>, LogRecordPos)>,
    v1: Seq<(Seq<u8>, LogRecordPos)>,
    v2: Seq<(Seq<u8>, LogRecordPos)>,
    v3: Seq<(Seq<u8>, LogRecordPos)>,
    v4: Seq<(Seq<u8>, LogRecordPos)>,
    k: Seq<u8>,
    d1: LogRecordPos,
    d2: LogRecordPos,
    r1: Option<LogRecordPos>,
    r2: Option<LogRecordPos>,
    r3: Option<LogRecordPos>,
    r4: Option<LogRecordPos>,
)
    requires
        crate::index::put_post(v0, v1, k, d1, r1),
        crate::index::put_post(v1, v2, k, d2, r2),
        crate::index::delete_post(v2, v3, k, r3),
        crate::index::delete_post(v3, v4, k, r4),
    ensures
        r2 == Some(d1),
        seq_get(v2, k) == Some(d2),
        r3 == Some(d2),
        seq_get(v3, k) is None,
        r4 is None,
        forall|other: Seq<u8>| other != k ==> seq_get(v4, other) == seq_get(v0, other),
{
}

/// Seek correctness: on a sorted snapshot that contains `key`, a cursor
/// positioned as `seek(key)` ensures stands exactly on `key`'s entry — in
/// ascending and in descending order alike — so an unfiltered `next` yields
/// `key` first.
pub proof fn lemma_seek_finds_key(
    descending: bool,
    snap: Seq<(Seq<u8>, LogRecordPos)>,
    key: Seq<u8>,
    cursor: int,
    i: int,
)
    requires
        spec_sorted_dir(descending, snap),
        0 <= i < snap.len(),
        snap[i].0 == key,
        0 <= cursor <= snap.len(),
        forall|j: int| 0 <= j < cursor ==> iter_before(descending, #[trigger] snap[j].0, key),
        cursor < snap.len() ==> !iter_before(descending, snap[cursor].0, key),
    ensures
        cursor == i,
{
    lemma_lex_irrefl(key);
    if cursor < i {
        assert(iter_before(descending, snap[cursor].0, snap[i].0));
    }
    if cursor > i {
        assert(iter_before(descending, snap[i].0, key));
    }
}

} // verus!
