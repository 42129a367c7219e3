//! The sorted-map index implementation.

use vstd::prelude::*;
use vstd::pervasive::VecAdditionalExecFns;
use crate::data::log_record::LogRecordPos;
use crate::index::Indexer;

verus! {

/// The mapping an entry list represents: later entries win.
pub open spec fn entry_map(s: Seq<(Vec<u8>, LogRecordPos)>) -> Map<Seq<u8>, LogRecordPos>
    decreases s.len(),
{
    if s.len() == 0 {
        Map::empty()
    } else {
        entry_map(s.drop_last()).insert(s.last().0@, s.last().1)
    }
}

/// No two entries carry the same key.
pub open spec fn keys_distinct(s: Seq<(Vec<u8>, LogRecordPos)>) -> bool {
    forall|i: int, j: int| 0 <= i < j < s.len() ==> s[i].0@ != s[j].0@
}

/// Strict lexicographic order on byte strings: a proper prefix comes
/// first, otherwise the first differing byte decides.
pub open spec fn lex_lt(a: Seq<u8>, b: Seq<u8>) -> bool
    decreases a.len(),
{
    if b.len() == 0 {
        false
    } else if a.len() == 0 {
        true
    } else if a.first() < b.first() {
        true
    } else if a.first() > b.first() {
        false
    } else {
        lex_lt(a.drop_first(), b.drop_first())
    }
}

/// Entries strictly ascend in lexicographic key order.
pub open spec fn keys_sorted(s: Seq<(Vec<u8>, LogRecordPos)>) -> bool {
    forall|i: int, j: int| 0 <= i < j < s.len() ==> lex_lt(s[i].0@, s[j].0@)
}

proof fn lemma_lex_lt_not_refl(a: Seq<u8>)
    ensures
        !lex_lt(a, a),
    decreases a.len(),
{
    if a.len() > 0 {
        lemma_lex_lt_not_refl(a.drop_first());
    }
}

proof fn lemma_lex_lt_trans(a: Seq<u8>, b: Seq<u8>, c: Seq<u8>)
    requires
        lex_lt(a, b),
        lex_lt(b, c),
    ensures
        lex_lt(a, c),
    decreases a.len(),
{
    if c.len() == 0 || a.len() == 0 {
    } else {
        assert(b.len() > 0);
        if a.first() == b.first() && b.first() == c.first() {
            lemma_lex_lt_trans(a.drop_first(), b.drop_first(), c.drop_first());
        }
    }
}

proof fn lemma_lex_lt_total(a: Seq<u8>, b: Seq<u8>)
    ensures
        a == b || lex_lt(a, b) || lex_lt(b, a),
    decreases a.len(),
{
    if a.len() == 0 && b.len() == 0 {
        assert(a =~= b);
    } else if a.len() == 0 || b.len() == 0 {
    } else if a.first() == b.first() {
        lemma_lex_lt_total(a.drop_first(), b.drop_first());
        if a.drop_first() == b.drop_first() {
            assert(a =~= b) by {
                assert(a.drop_first().len() == a.len() - 1);
                assert(b.drop_first().len() == b.len() - 1);
                assert(a.len() == b.len());
                assert(forall|i: int|
                    1 <= i < a.len() ==> a[i] == a.drop_first()[i - 1] && b[i] == b.drop_first()[
                        i - 1]);
            }
        }
    }
}

/// A strictly ascending entry list never repeats a key.
proof fn lemma_sorted_implies_distinct(s: Seq<(Vec<u8>, LogRecordPos)>)
    requires
        keys_sorted(s),
    ensures
        keys_distinct(s),
{
    assert forall|i: int, j: int| 0 <= i < j < s.len() implies s[i].0@ != s[j].0@ by {
        assert(lex_lt(s[i].0@, s[j].0@));
        if s[i].0@ == s[j].0@ {
            lemma_lex_lt_not_refl(s[i].0@);
        }
    }
}

/// Three-way comparison step: `lex_lt` is decided by the first position
/// where the strings differ.
fn lex_less(a: &Vec<u8>, b: &Vec<u8>) -> (r: bool)
    ensures
        r == lex_lt(a@, b@),
{
    let an = a.len();
    let bn = b.len();
    proof {
        assert(a@.skip(0) =~= a@);
        assert(b@.skip(0) =~= b@);
    }
    let mut i: usize = 0;
    while i < an && i < bn
        invariant
            an == a@.len(),
            bn == b@.len(),
            0 <= i <= an,
            0 <= i <= bn,
            lex_lt(a@, b@) == lex_lt(a@.skip(i as int), b@.skip(i as int)),
        decreases an - i,
    {
        let x = a[i];
        let y = b[i];
        proof {
            assert(a@.skip(i as int).first() == a@[i as int]);
            assert(b@.skip(i as int).first() == b@[i as int]);
        }
        if x < y {
            return true;
        }
        if x > y {
            return false;
        }
        proof {
            assert(a@.skip(i as int).drop_first() =~= a@.skip(i + 1));
            assert(b@.skip(i as int).drop_first() =~= b@.skip(i + 1));
        }
        i = i + 1;
    }
    proof {
        if an < bn {
            assert(a@.skip(i as int).len() == 0);
            assert(b@.skip(i as int).len() > 0);
        } else {
            assert(b@.skip(i as int).len() == 0);
        }
    }
    an < bn
}

proof fn lemma_distinct_prefix(s: Seq<(Vec<u8>, LogRecordPos)>)
    requires
        keys_distinct(s),
        s.len() > 0,
    ensures
        keys_distinct(s.drop_last()),
{
    assert forall|i: int, j: int| 0 <= i < j < s.drop_last().len() implies s.drop_last()[i].0@
        != s.drop_last()[j].0@ by {
        assert(s.drop_last()[i] == s[i]);
        assert(s.drop_last()[j] == s[j]);
    }
}

/// With distinct keys, the represented map holds exactly the entries'
/// keys, each mapped to its entry's position.
proof fn lemma_entry_map_props(s: Seq<(Vec<u8>, LogRecordPos)>)
    requires
        keys_distinct(s),
    ensures
        forall|i: int|
            0 <= i < s.len() ==> entry_map(s).contains_key((#[trigger] s[i]).0@) && entry_map(
                s,
            )[s[i].0@] == s[i].1,
        forall|k: Seq<u8>|
            entry_map(s).contains_key(k) ==> exists|i: int|
                0 <= i < s.len() && (#[trigger] s[i]).0@ == k,
    decreases s.len(),
{
    if s.len() > 0 {
        lemma_distinct_prefix(s);
        lemma_entry_map_props(s.drop_last());
        let prefix = s.drop_last();
        assert forall|i: int|
            0 <= i < s.len() implies entry_map(s).contains_key((#[trigger] s[i]).0@) && entry_map(
            s,
        )[s[i].0@] == s[i].1 by {
            if i < s.len() - 1 {
                assert(prefix[i] == s[i]);
                assert(s[i].0@ != s.last().0@);
            }
        }
        assert forall|k: Seq<u8>| entry_map(s).contains_key(k) implies exists|i: int|
            0 <= i < s.len() && (#[trigger] s[i]).0@ == k by {
            if k == s.last().0@ {
                assert((s[s.len() - 1]).0@ == k);
            } else {
                assert(entry_map(prefix).contains_key(k));
                let i = choose|i: int| 0 <= i < prefix.len() && (#[trigger] prefix[i]).0@ == k;
                assert((s[i]).0@ == k);
            }
        }
    }
}

/// Replacing the entry that holds a key updates the map at that key.
proof fn lemma_entry_map_update(
    s: Seq<(Vec<u8>, LogRecordPos)>,
    i: int,
    e: (Vec<u8>, LogRecordPos),
)
    requires
        keys_distinct(s),
        0 <= i < s.len(),
        s[i].0@ == e.0@,
    ensures
        entry_map(s.update(i, e)) == entry_map(s).insert(e.0@, e.1),
    decreases s.len(),
{
    let k = e.0@;
    let prefix = s.drop_last();
    if i == s.len() - 1 {
        assert(s.update(i, e).drop_last() =~= prefix);
        assert(s.update(i, e).last() == e);
        assert(entry_map(prefix).insert(k, e.1) =~= entry_map(prefix).insert(
            s.last().0@,
            s.last().1,
        ).insert(k, e.1));
    } else {
        lemma_distinct_prefix(s);
        lemma_entry_map_update(prefix, i, e);
        assert(s.update(i, e).drop_last() =~= prefix.update(i, e));
        assert(s.update(i, e).last() == s.last());
        assert(s[i].0@ != s.last().0@);
        assert(entry_map(prefix).insert(k, e.1).insert(s.last().0@, s.last().1) =~= entry_map(
            prefix,
        ).insert(s.last().0@, s.last().1).insert(k, e.1));
    }
}

/// Removing the entry that holds a key removes that key from the map.
proof fn lemma_entry_map_remove(s: Seq<(Vec<u8>, LogRecordPos)>, i: int)
    requires
        keys_distinct(s),
        0 <= i < s.len(),
    ensures
        entry_map(s.remove(i)) == entry_map(s).remove(s[i].0@),
    decreases s.len(),
{
    let k = s[i].0@;
    let prefix = s.drop_last();
    if i == s.len() - 1 {
        assert(s.remove(i) =~= prefix);
        lemma_distinct_prefix(s);
        lemma_entry_map_props(prefix);
        assert(!entry_map(prefix).contains_key(k)) by {
            if entry_map(prefix).contains_key(k) {
                let j = choose|j: int| 0 <= j < prefix.len() && (#[trigger] prefix[j]).0@ == k;
                assert(s[j].0@ == s[i].0@);
            }
        }
        assert(entry_map(prefix) =~= entry_map(prefix).insert(k, s.last().1).remove(k));
    } else {
        lemma_distinct_prefix(s);
        lemma_entry_map_remove(prefix, i);
        assert(s.remove(i).drop_last() =~= prefix.remove(i));
        assert(s.remove(i).last() == s.last());
        assert(s[i].0@ != s.last().0@);
        assert(entry_map(prefix).remove(k).insert(s.last().0@, s.last().1) =~= entry_map(
            prefix,
        ).insert(s.last().0@, s.last().1).remove(k));
    }
}

/// Inserting an entry with a fresh key, wherever it is placed, adds
/// exactly that key to the map.
proof fn lemma_entry_map_insert_fresh(
    s: Seq<(Vec<u8>, LogRecordPos)>,
    j: int,
    e: (Vec<u8>, LogRecordPos),
)
    requires
        0 <= j <= s.len(),
        forall|i: int| 0 <= i < s.len() ==> (#[trigger] s[i]).0@ != e.0@,
    ensures
        entry_map(s.insert(j, e)) == entry_map(s).insert(e.0@, e.1),
    decreases s.len(),
{
    let k = e.0@;
    let t = s.insert(j, e);
    if j == s.len() {
        assert(t.drop_last() =~= s);
        assert(t.last() == e);
    } else {
        assert(t.drop_last() =~= s.drop_last().insert(j, e));
        assert(t.last() == s.last());
        assert forall|i: int| 0 <= i < s.drop_last().len() implies (
        #[trigger] s.drop_last()[i]).0@ != k by {
            assert(s.drop_last()[i] == s[i]);
        }
        lemma_entry_map_insert_fresh(s.drop_last(), j, e);
        assert(s[s.len() - 1].0@ != k);
        assert(entry_map(s.drop_last()).insert(k, e.1).insert(s.last().0@, s.last().1)
            =~= entry_map(s.drop_last()).insert(s.last().0@, s.last().1).insert(k, e.1));
    }
}

/// Byte-wise equality of two keys.
fn bytes_equal(a: &Vec<u8>, b: &Vec<u8>) -> (r: bool)
    ensures
        r == (a@ == b@),
{
    if a.len() != b.len() {
        return false;
    }
    let mut i: usize = 0;
    while i < a.len()
        invariant
            0 <= i <= a@.len(),
            a@.len() == b@.len(),
            forall|j: int| 0 <= j < i ==> a@[j] == b@[j],
        decreases a@.len() - i,
    {
        if a[i] != b[i] {
            return false;
        }
        i = i + 1;
    }
    proof {
        assert(a@ =~= b@);
    }
    true
}

/// The sorted-map index: entries kept in strictly ascending lexicographic
/// key order behind a map abstraction, every key held at most once.
pub struct BTree {
    tree: Vec<(Vec<u8>, LogRecordPos)>,
}

impl BTree {
    /// An empty index.
    pub fn new() -> (r: BTree)
        ensures
            r.wf(),
            r.entries() == Map::<Seq<u8>, LogRecordPos>::empty(),
    {
        BTree { tree: Vec::new() }
    }

    /// The position of the entry that holds `key`, if one does.
    fn find(&self, key: &Vec<u8>) -> (r: Option<usize>)
        ensures
            (match r {
                Some(i) => i < self.tree@.len() && self.tree@[i as int].0@ == key@,
                None => forall|i: int| 0 <= i < self.tree@.len() ==> (#[trigger] self.tree@[i]).0@ != key@,
            }),
    {
        let mut i: usize = 0;
        while i < self.tree.len()
            invariant
                0 <= i <= self.tree@.len(),
                forall|j: int| 0 <= j < i ==> (#[trigger] self.tree@[j]).0@ != key@,
            decreases self.tree@.len() - i,
        {
            let entry = &self.tree[i];
            if bytes_equal(&entry.0, key) {
                return Some(i);
            }
            i = i + 1;
        }
        None
    }

    /// Where `key` belongs: the first position whose key is not
    /// lexicographically below it.
    fn insert_position(&self, key: &Vec<u8>) -> (r: usize)
        ensures
            r <= self.tree@.len(),
            forall|t: int| 0 <= t < r ==> lex_lt((#[trigger] self.tree@[t]).0@, key@),
            r < self.tree@.len() ==> !lex_lt(self.tree@[r as int].0@, key@),
    {
        let mut j: usize = 0;
        loop
            invariant
                0 <= j <= self.tree@.len(),
                forall|t: int| 0 <= t < j ==> lex_lt((#[trigger] self.tree@[t]).0@, key@),
            ensures
                j <= self.tree@.len(),
                forall|t: int| 0 <= t < j ==> lex_lt((#[trigger] self.tree@[t]).0@, key@),
                j < self.tree@.len() ==> !lex_lt(self.tree@[j as int].0@, key@),
            decreases self.tree@.len() - j,
        {
            if j >= self.tree.len() {
                break;
            }
            if !lex_less(&self.tree[j].0, key) {
                break;
            }
            j = j + 1;
        }
        j
    }
}

impl Indexer for BTree {
    closed spec fn entries(&self) -> Map<Seq<u8>, LogRecordPos> {
        entry_map(self.tree@)
    }

    closed spec fn wf(&self) -> bool {
        keys_sorted(self.tree@)
    }

    fn put(&mut self, key: Vec<u8>, pos: LogRecordPos) -> (r: bool) {
        let ghost s0 = self.tree@;
        proof {
            lemma_sorted_implies_distinct(s0);
        }
        match self.find(&key) {
            Some(i) => {
                proof {
                    lemma_entry_map_update(s0, i as int, (key, pos));
                }
                self.tree.set(i, (key, pos));
                proof {
                    assert forall|a: int, b: int| 0 <= a < b < self.tree@.len() implies lex_lt(
                        (#[trigger] self.tree@[a]).0@,
                        (#[trigger] self.tree@[b]).0@,
                    ) by {
                        assert(self.tree@[a].0@ == s0[a].0@);
                        assert(self.tree@[b].0@ == s0[b].0@);
                        assert(lex_lt(s0[a].0@, s0[b].0@));
                    }
                }
            },
            None => {
                let j = self.insert_position(&key);
                proof {
                    lemma_entry_map_insert_fresh(s0, j as int, (key, pos));
                }
                self.tree.insert(j, (key, pos));
                proof {
                    let ja = j as int;
                    assert forall|a: int, b: int| 0 <= a < b < self.tree@.len() implies lex_lt(
                        (#[trigger] self.tree@[a]).0@,
                        (#[trigger] self.tree@[b]).0@,
                    ) by {
                        let s1 = self.tree@;
                        if a == ja {
                            assert(s1[b] == s0[b - 1]);
                            assert(ja <= b - 1 < s0.len());
                            lemma_lex_lt_total(key@, s0[ja].0@);
                            assert(s0[ja].0@ != key@);
                            assert(lex_lt(key@, s0[ja].0@));
                            if ja < b - 1 {
                                assert(lex_lt(s0[ja].0@, s0[b - 1].0@));
                                lemma_lex_lt_trans(key@, s0[ja].0@, s0[b - 1].0@);
                            }
                        } else if b == ja {
                            assert(s1[a] == s0[a]);
                            assert(lex_lt(s0[a].0@, key@));
                        } else if a < ja && b < ja {
                            assert(s1[a] == s0[a] && s1[b] == s0[b]);
                            assert(lex_lt(s0[a].0@, s0[b].0@));
                        } else if a < ja && b > ja {
                            assert(s1[a] == s0[a] && s1[b] == s0[b - 1]);
                            assert(lex_lt(s0[a].0@, s0[b - 1].0@));
                        } else {
                            assert(s1[a] == s0[a - 1] && s1[b] == s0[b - 1]);
                            assert(lex_lt(s0[a - 1].0@, s0[b - 1].0@));
                        }
                    }
                }
            },
        }
        true
    }

    fn get(&self, key: Vec<u8>) -> (r: Option<LogRecordPos>) {
        proof {
            lemma_sorted_implies_distinct(self.tree@);
            lemma_entry_map_props(self.tree@);
        }
        match self.find(&key) {
            Some(i) => Some(self.tree[i].1),
            None => {
                proof {
                    if entry_map(self.tree@).contains_key(key@) {
                        let j = choose|j: int|
                            0 <= j < self.tree@.len() && (#[trigger] self.tree@[j]).0@ == key@;
                    }
                }
                None
            },
        }
    }

    fn delete(&mut self, key: Vec<u8>) -> (r: bool) {
        proof {
            lemma_sorted_implies_distinct(self.tree@);
            lemma_entry_map_props(self.tree@);
        }
        let ghost s0 = self.tree@;
        match self.find(&key) {
            Some(i) => {
                proof {
                    lemma_entry_map_remove(s0, i as int);
                }
                self.tree.remove(i);
                proof {
                    assert forall|a: int, b: int| 0 <= a < b < self.tree@.len() implies lex_lt(
                        (#[trigger] self.tree@[a]).0@,
                        (#[trigger] self.tree@[b]).0@,
                    ) by {
                        let a0 = if a < i { a } else { a + 1 };
                        let b0 = if b < i { b } else { b + 1 };
                        assert(self.tree@[a] == s0[a0]);
                        assert(self.tree@[b] == s0[b0]);
                        assert(lex_lt(s0[a0].0@, s0[b0].0@));
                    }
                }
                true
            },
            None => {
                proof {
                    assert(!entry_map(s0).contains_key(key@)) by {
                        if entry_map(s0).contains_key(key@) {
                            let j = choose|j: int|
                                0 <= j < s0.len() && (#[trigger] s0[j]).0@ == key@;
                        }
                    }
                    assert(entry_map(s0).remove(key@) =~= entry_map(s0));
                }
                false
            },
        }
    }
}

} // verus!
