use vstd::prelude::*;
use crate::log_record::LogRecordPos;
use crate::options::IteratorOptions;

verus! {

/// Strict lexicographic (byte-wise) order on keys: the comparator every
/// index backend and every snapshot iterator uses.
pub open spec fn lex_lt(a: Seq<u8>, b: Seq<u8>) -> bool
    decreases a.len(),
{
    if b.len() == 0 {
        false
    } else if a.len() == 0 {
        true
    } else if a[0] < b[0] {
        true
    } else if a[0] > b[0] {
        false
    } else {
        lex_lt(a.skip(1), b.skip(1))
    }
}

/// No key is strictly below itself.
pub proof fn lemma_lex_irrefl(a: Seq<u8>)
    ensures
        !lex_lt(a, a),
    decreases a.len(),
{
    if a.len() > 0 {
        lemma_lex_irrefl(a.skip(1));
    }
}

/// Strict lexicographic order is transitive.
pub proof fn lemma_lex_trans(a: Seq<u8>, b: Seq<u8>, c: Seq<u8>)
    requires
        lex_lt(a, b),
        lex_lt(b, c),
    ensures
        lex_lt(a, c),
    decreases a.len(),
{
    if a.len() == 0 {
    } else if a[0] == b[0] && b[0] == c[0] {
        lemma_lex_trans(a.skip(1), b.skip(1), c.skip(1));
    }
}

/// Two keys with neither below the other are equal.
pub proof fn lemma_lex_total(a: Seq<u8>, b: Seq<u8>)
    requires
        !lex_lt(a, b),
        !lex_lt(b, a),
    ensures
        a == b,
    decreases a.len(),
{
    if a.len() == 0 || b.len() == 0 {
        assert(a =~= b);
    } else {
        assert(a[0] == b[0]);
        lemma_lex_total(a.skip(1), b.skip(1));
        assert forall|i: int| 0 <= i < a.len() implies a[i] == b[i] by {
            if i > 0 {
                assert(a[i] == a.skip(1)[i - 1]);
                assert(b[i] == b.skip(1)[i - 1]);
            }
        }
        assert(a =~= b);
    }
}

/// Whether `key` starts with `prefix`; an empty prefix matches every key.
pub open spec fn prefix_matches(prefix: Seq<u8>, key: Seq<u8>) -> bool {
    prefix.len() <= key.len() && key.take(prefix.len() as int) == prefix
}

pub(crate) fn key_lt(a: &Vec<u8>, b: &Vec<u8>) -> (r: bool)
    ensures
        r == lex_lt(a@, b@),
{
    proof {
        assert(a@.skip(0) =~= a@);
        assert(b@.skip(0) =~= b@);
    }
    let mut i: usize = 0;
    while i < a.len() && i < b.len()
        invariant
            i <= a.len(),
            i <= b.len(),
            lex_lt(a@, b@) == lex_lt(a@.skip(i as int), b@.skip(i as int)),
        decreases a.len() - i,
    {
        if a[i] < b[i] {
            return true;
        }
        if a[i] > b[i] {
            return false;
        }
        proof {
            assert(a@.skip(i as int).skip(1) =~= a@.skip(i as int + 1));
            assert(b@.skip(i as int).skip(1) =~= b@.skip(i as int + 1));
        }
        i = i + 1;
    }
    a.len() < b.len()
}

pub(crate) fn keys_equal(a: &Vec<u8>, b: &Vec<u8>) -> (r: bool)
    ensures
        r == (a@ == b@),
{
    if a.len() != b.len() {
        proof {
            assert(a@ != b@);
        }
        return false;
    }
    let mut i: usize = 0;
    while i < a.len()
        invariant
            i <= a.len(),
            a@.len() == b@.len(),
            forall|j: int| 0 <= j < i ==> a@[j] == b@[j],
        decreases a.len() - i,
    {
        if a[i] != b[i] {
            return false;
        }
        i = i + 1;
    }
    proof {
        assert(a@ =~= b@);
    }
    true
}

pub(crate) fn has_prefix(key: &Vec<u8>, prefix: &Vec<u8>) -> (r: bool)
    ensures
        r == prefix_matches(prefix@, key@),
{
    if prefix.len() > key.len() {
        return false;
    }
    let mut i: usize = 0;
    while i < prefix.len()
        invariant
            i <= prefix.len() <= key.len(),
            forall|j: int| 0 <= j < i ==> key@[j] == prefix@[j],
        decreases prefix.len() - i,
    {
        if key[i] != prefix[i] {
            proof {
                assert(key@.take(prefix@.len() as int)[i as int] != prefix@[i as int]);
            }
            return false;
        }
        i = i + 1;
    }
    proof {
        assert(key@.take(prefix@.len() as int) =~= prefix@);
    }
    true
}

pub(crate) fn clone_bytes(v: &Vec<u8>) -> (r: Vec<u8>)
    ensures
        r@ == v@,
{
    let mut out: Vec<u8> = Vec::new();
    let mut i: usize = 0;
    while i < v.len()
        invariant
            i <= v.len(),
            out@ == v@.take(i as int),
        decreases v.len() - i,
    {
        out.push(v[i]);
        i = i + 1;
        proof {
            assert(out@ =~= v@.take(i as int));
        }
    }
    proof {
        assert(v@.take(v@.len() as int) =~= v@);
    }
    out
}

/// The entries of an index or a snapshot, as key-descriptor pairs.
pub open spec fn entry_views(s: Seq<(Vec<u8>, LogRecordPos)>) -> Seq<(Seq<u8>, LogRecordPos)> {
    s.map_values(|e: (Vec<u8>, LogRecordPos)| (e.0@, e.1))
}

/// Looking a key up in a sequence of entries: the descriptor of the first
/// entry carrying the key, if any. On a sorted sequence keys are unique, so
/// this is the map the index represents.
pub open spec fn seq_get(s: Seq<(Seq<u8>, LogRecordPos)>, key: Seq<u8>) -> Option<LogRecordPos>
    decreases s.len(),
{
    if s.len() == 0 {
        None
    } else if s[0].0 == key {
        Some(s[0].1)
    } else {
        seq_get(s.skip(1), key)
    }
}

/// Entries strictly ascending by key.
pub open spec fn spec_sorted(s: Seq<(Seq<u8>, LogRecordPos)>) -> bool {
    forall|i: int, j: int| 0 <= i < j < s.len() ==> lex_lt(#[trigger] s[i].0, #[trigger] s[j].0)
}

pub(crate) proof fn lemma_seq_get_no_match(s: Seq<(Seq<u8>, LogRecordPos)>, key: Seq<u8>)
    requires
        forall|i: int| 0 <= i < s.len() ==> (#[trigger] s[i]).0 != key,
    ensures
        seq_get(s, key) is None,
    decreases s.len(),
{
    if s.len() > 0 {
        lemma_seq_get_no_match(s.skip(1), key);
    }
}

pub(crate) proof fn lemma_seq_get_match(s: Seq<(Seq<u8>, LogRecordPos)>, key: Seq<u8>, i: int)
    requires
        0 <= i < s.len(),
        s[i].0 == key,
        forall|j: int| 0 <= j < i ==> (#[trigger] s[j]).0 != key,
    ensures
        seq_get(s, key) == Some(s[i].1),
    decreases i,
{
    if i > 0 {
        lemma_seq_get_match(s.skip(1), key, i - 1);
    }
}

pub(crate) proof fn lemma_seq_get_insert_other(
    s: Seq<(Seq<u8>, LogRecordPos)>,
    idx: int,
    kv: (Seq<u8>, LogRecordPos),
    key: Seq<u8>,
)
    requires
        0 <= idx <= s.len(),
        key != kv.0,
    ensures
        seq_get(s.insert(idx, kv), key) == seq_get(s, key),
    decreases idx,
{
    let t = s.insert(idx, kv);
    if idx == 0 {
        assert(t.skip(1) =~= s);
    } else {
        assert(t[0] == s[0]);
        if s[0].0 != key {
            assert(t.skip(1) =~= s.skip(1).insert(idx - 1, kv));
            lemma_seq_get_insert_other(s.skip(1), idx - 1, kv, key);
        }
    }
}

pub(crate) proof fn lemma_seq_get_update_other(
    s: Seq<(Seq<u8>, LogRecordPos)>,
    idx: int,
    kv: (Seq<u8>, LogRecordPos),
    key: Seq<u8>,
)
    requires
        0 <= idx < s.len(),
        s[idx].0 == kv.0,
        key != kv.0,
    ensures
        seq_get(s.update(idx, kv), key) == seq_get(s, key),
    decreases idx,
{
    let t = s.update(idx, kv);
    if idx == 0 {
        assert(t.skip(1) =~= s.skip(1));
    } else {
        assert(t[0] == s[0]);
        if s[0].0 != key {
            assert(t.skip(1) =~= s.skip(1).update(idx - 1, kv));
            lemma_seq_get_update_other(s.skip(1), idx - 1, kv, key);
        }
    }
}

pub(crate) proof fn lemma_seq_get_remove_other(s: Seq<(Seq<u8>, LogRecordPos)>, idx: int, key: Seq<u8>)
    requires
        0 <= idx < s.len(),
        s[idx].0 != key,
    ensures
        seq_get(s.remove(idx), key) == seq_get(s, key),
    decreases idx,
{
    let t = s.remove(idx);
    if idx == 0 {
        assert(t =~= s.skip(1));
    } else {
        assert(t[0] == s[0]);
        if s[0].0 != key {
            assert(t.skip(1) =~= s.skip(1).remove(idx - 1));
            lemma_seq_get_remove_other(s.skip(1), idx - 1, key);
        }
    }
}

/// What `put` promises: the returned value is the key's previous
/// descriptor, the key now maps to `pos`, and every other key is untouched.
pub open spec fn put_post(
    old_view: Seq<(Seq<u8>, LogRecordPos)>,
    new_view: Seq<(Seq<u8>, LogRecordPos)>,
    key: Seq<u8>,
    pos: LogRecordPos,
    r: Option<LogRecordPos>,
) -> bool {
    &&& r == seq_get(old_view, key)
    &&& seq_get(new_view, key) == Some(pos)
    &&& forall|k: Seq<u8>| k != key ==> seq_get(new_view, k) == seq_get(old_view, k)
}

/// What `delete` promises: the returned value is the key's previous
/// descriptor, the key is gone, and every other key is untouched.
pub open spec fn delete_post(
    old_view: Seq<(Seq<u8>, LogRecordPos)>,
    new_view: Seq<(Seq<u8>, LogRecordPos)>,
    key: Seq<u8>,
    r: Option<LogRecordPos>,
) -> bool {
    &&& r == seq_get(old_view, key)
    &&& seq_get(new_view, key) is None
    &&& forall|k: Seq<u8>| k != key ==> seq_get(new_view, k) == seq_get(old_view, k)
}

/// The ordered key-to-descriptor map every index backend implements. The
/// index always reflects each key's most recent descriptor; a tombstoned
/// key is removed outright.
pub trait Indexer: Sized {
    /// The entries the index holds, ascending by key.
    spec fn view(&self) -> Seq<(Seq<u8>, LogRecordPos)>;

    /// The structural invariant: entries strictly sorted by key.
    spec fn wf(&self) -> bool;

    /// Inserts or overwrites; returns the prior descriptor if the key
    /// existed.
    fn put(&mut self, key: Vec<u8>, pos: LogRecordPos) -> (r: Option<LogRecordPos>)
        requires
            old(self).wf(),
        ensures
            final (self).wf(),
            put_post(old(self).view(), final (self).view(), key@, pos, r),
    ;

    /// Looks a key up.
    fn get(&self, key: Vec<u8>) -> (r: Option<LogRecordPos>)
        requires
            self.wf(),
        ensures
            r == seq_get(self.view(), key@),
    ;

    /// Removes a key; absence is not an error.
    fn delete(&mut self, key: Vec<u8>) -> (r: Option<LogRecordPos>)
        requires
            old(self).wf(),
        ensures
            final (self).wf(),
            delete_post(old(self).view(), final (self).view(), key@, r),
    ;

    /// All keys, in ascending byte order.
    fn list_keys(&self) -> (r: Vec<Vec<u8>>)
        requires
            self.wf(),
        ensures
            r@.len() == self.view().len(),
            forall|i: int| 0 <= i < r@.len() ==> (#[trigger] r@[i])@ == self.view()[i].0,
            forall|i: int, j: int| 0 <= i < j < r@.len() ==> lex_lt(r@[i]@, r@[j]@),
    ;
}

/// A snapshot cursor over an index: fixed at creation time, immune to later
/// index mutations, ordered by the snapshot's own direction, and filtered
/// by prefix during `next`.
pub trait IndexIterator: Sized {
    /// The snapshot entries, in iteration order.
    spec fn snapshot(&self) -> Seq<(Seq<u8>, LogRecordPos)>;

    /// The cursor: the next snapshot position to consider.
    spec fn cursor(&self) -> int;

    /// The configured prefix filter.
    spec fn prefix(&self) -> Seq<u8>;

    /// Whether the snapshot runs descending.
    spec fn descending(&self) -> bool;

    /// The structural invariant: snapshot sorted in iteration order, cursor
    /// within bounds.
    spec fn wf(&self) -> bool;

    /// Resets the cursor to the first entry.
    fn rewind(&mut self)
        requires
            old(self).wf(),
        ensures
            final (self).wf(),
            final (self).cursor() == 0,
            final (self).snapshot() == old(self).snapshot(),
            final (self).prefix() == old(self).prefix(),
            final (self).descending() == old(self).descending(),
    ;

    /// Binary-searches the snapshot for the first entry at or past `key` in
    /// iteration order. The prefix filter does not apply here; it applies
    /// during `next`.
    fn seek(&mut self, key: Vec<u8>)
        requires
            old(self).wf(),
        ensures
            final (self).wf(),
            final (self).snapshot() == old(self).snapshot(),
            final (self).prefix() == old(self).prefix(),
            final (self).descending() == old(self).descending(),
            forall|j: int|
                0 <= j < final (self).cursor() ==> iter_before(
                    final (self).descending(),
                    #[trigger] final (self).snapshot()[j].0,
                    key@,
                ),
            final (self).cursor() < final (self).snapshot().len() ==> !iter_before(
                final (self).descending(),
                final (self).snapshot()[final (self).cursor()].0,
                key@,
            ),
    ;

    /// Yields the next entry whose key passes the prefix filter, or the end
    /// of the snapshot.
    fn next(&mut self) -> (r: Option<(Vec<u8>, LogRecordPos)>)
        requires
            old(self).wf(),
        ensures
            final (self).wf(),
            final (self).snapshot() == old(self).snapshot(),
            final (self).prefix() == old(self).prefix(),
            final (self).descending() == old(self).descending(),
            match r {
                Some(kp) => exists|i: int|
                    old(self).cursor() <= i < old(self).snapshot().len() && old(self).snapshot()[i]
                        == (kp.0@, kp.1) && prefix_matches(old(self).prefix(), kp.0@)
                        && final (self).cursor() == i + 1 && (forall|j: int|
                        old(self).cursor() <= j < i ==> !prefix_matches(
                            old(self).prefix(),
                            #[trigger] old(self).snapshot()[j].0,
                        )),
                None => final (self).cursor() >= old(self).cursor() && forall|j: int|
                    old(self).cursor() <= j < old(self).snapshot().len() ==> !prefix_matches(
                        old(self).prefix(),
                        #[trigger] old(self).snapshot()[j].0,
                    ),
            },
    ;
}

/// Whether `a` comes strictly before `b` in iteration order.
pub open spec fn iter_before(descending: bool, a: Seq<u8>, b: Seq<u8>) -> bool {
    if descending {
        lex_lt(b, a)
    } else {
        lex_lt(a, b)
    }
}

/// Entries strictly ordered in iteration order.
pub open spec fn spec_sorted_dir(descending: bool, s: Seq<(Seq<u8>, LogRecordPos)>) -> bool {
    forall|i: int, j: int|
        0 <= i < j < s.len() ==> iter_before(descending, #[trigger] s[i].0, #[trigger] s[j].0)
}

} // verus!
