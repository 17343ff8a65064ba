//! The key directory: a map from each live key to the position of its
//! latest record, ordered by key, and the iterator over a snapshot of it.
use vstd::prelude::*;
use crate::bytes_util::{copy_range, has_prefix, starts_with};
use crate::log_record::LogRecordPos;
use crate::options::IteratorOptions;
use crate::skiplist::SkipList;
use crate::order::{compare_bytes, lemma_cmp_basics, lemma_lex_lt_total, lemma_lex_lt_transitive, lex_lt};

verus! {

/// The keys of `s` are strictly ascending.
pub open spec fn ascending(s: Seq<(Seq<u8>, LogRecordPos)>) -> bool {
    forall|i: int, j: int| 0 <= i < j < s.len() ==> lex_lt(#[trigger] s[i].0, #[trigger] s[j].0)
}

/// The keys of `s` are strictly descending.
pub open spec fn descending(s: Seq<(Seq<u8>, LogRecordPos)>) -> bool {
    forall|i: int, j: int| 0 <= i < j < s.len() ==> lex_lt(#[trigger] s[j].0, #[trigger] s[i].0)
}

/// The entries of `s` with their keys as byte sequences.
pub open spec fn entries_of(s: Seq<(Vec<u8>, LogRecordPos)>) -> Seq<(Seq<u8>, LogRecordPos)> {
    s.map_values(|e: (Vec<u8>, LogRecordPos)| (e.0@, e.1))
}

/// `s` back to front.
pub open spec fn reversed<A>(s: Seq<A>) -> Seq<A> {
    Seq::new(s.len(), |i: int| s[s.len() - 1 - i])
}

/// A copy of a key.
pub fn clone_key(k: &Vec<u8>) -> (r: Vec<u8>)
    ensures
        r@ == k@,
{
    copy_range(k.as_slice(), 0, k.len())
}

/// What a key directory holds for `k`.
pub open spec fn lookup(m: Map<Seq<u8>, LogRecordPos>, k: Seq<u8>) -> Option<LogRecordPos> {
    if m.contains_key(k) {
        Some(m[k])
    } else {
        None
    }
}

/// `es` lists the entries of `m`, in ascending key order.
pub open spec fn lists_in_order(m: Map<Seq<u8>, LogRecordPos>, es: Seq<(Seq<u8>, LogRecordPos)>) -> bool {
    &&& ascending(es)
    &&& forall|i: int|
        0 <= i < es.len() ==> #[trigger] m.contains_key(es[i].0) && m[es[i].0] == es[i].1
    &&& forall|k: Seq<u8>| #[trigger]
        m.contains_key(k) ==> exists|i: int| 0 <= i < es.len() && #[trigger] es[i].0 == k
}

/// `keys` are the keys of `m`, ascending.
pub open spec fn keys_listed(m: Map<Seq<u8>, LogRecordPos>, keys: Seq<Vec<u8>>) -> bool {
    exists|es: Seq<(Seq<u8>, LogRecordPos)>|
        lists_in_order(m, es) && es.len() == keys.len() && forall|i: int|
            0 <= i < keys.len() ==> #[trigger] keys[i]@ == es[i].0
}

/// What every key directory offers, whatever keeps it: each mutation
/// returns the position it displaced, so that reclaimable space can be
/// counted.
pub trait Indexer {
    /// The directory as a map from key to position.
    spec fn index_map(&self) -> Map<Seq<u8>, LogRecordPos>;

    spec fn well_formed(&self) -> bool;

    /// Points `key` at `pos`; returns the position it replaced.
    fn put(&mut self, key: Vec<u8>, pos: LogRecordPos) -> (r: Option<LogRecordPos>)
        requires
            old(self).well_formed(),
        ensures
            final(self).well_formed(),
            final(self).index_map() == old(self).index_map().insert(key@, pos),
            r == lookup(old(self).index_map(), key@),
    ;

    /// The position of `key`, if it is live.
    fn get(&self, key: Vec<u8>) -> (r: Option<LogRecordPos>)
        requires
            self.well_formed(),
        ensures
            r == lookup(self.index_map(), key@),
    ;

    /// Removes `key`; returns the position it had.
    fn delete(&mut self, key: Vec<u8>) -> (r: Option<LogRecordPos>)
        requires
            old(self).well_formed(),
        ensures
            final(self).well_formed(),
            final(self).index_map() == old(self).index_map().remove(key@),
            r == lookup(old(self).index_map(), key@),
    ;

    /// Every live key, ascending.
    fn list_keys(&self) -> (r: Vec<Vec<u8>>)
        requires
            self.well_formed(),
        ensures
            keys_listed(self.index_map(), r@),
    ;

    /// A snapshot of the entries in the order the options ask for.
    fn iterator(&self, options: IteratorOptions) -> (r: IndexIterator)
        requires
            self.well_formed(),
        ensures
            r.wf(),
            r.position() == 0,
            r.reverse() == options.reverse,
            r.prefix() == options.prefix@,
            lists_in_order(
                self.index_map(),
                if options.reverse {
                    reversed(r.entries())
                } else {
                    r.entries()
                },
            ),
    ;

    /// Removes every key.
    fn clear(&mut self)
        requires
            old(self).well_formed(),
        ensures
            final(self).well_formed(),
            final(self).index_map() == Map::<Seq<u8>, LogRecordPos>::empty(),
    ;
}

/// The iterator of an ordered-tree directory.
pub type BTreeIterator = IndexIterator;

/// The ordered in-memory key directory: entries kept sorted by key.
///
/// vstd specifies std's `BTreeMap` only for keys whose order it knows, and
/// `Vec<u8>` is not among them: with such keys not even the length after one
/// insert can be proved. So the entries sit in a sorted `Vec`, with a ghost
/// map as their model.
pub struct BTree {
    items: Vec<(Vec<u8>, LogRecordPos)>,
    model: Ghost<Map<Seq<u8>, LogRecordPos>>,
}

impl View for BTree {
    type V = Map<Seq<u8>, LogRecordPos>;

    closed spec fn view(&self) -> Map<Seq<u8>, LogRecordPos> {
        self.model@
    }
}

impl BTree {
    /// The entries in ascending key order.
    pub closed spec fn entries(&self) -> Seq<(Seq<u8>, LogRecordPos)> {
        entries_of(self.items@)
    }

    /// The entries are sorted and are exactly the map's.
    pub closed spec fn wf(&self) -> bool {
        &&& ascending(self.entries())
        &&& forall|i: int|
            0 <= i < self.items@.len() ==> #[trigger] self.model@.contains_key(self.items@[i].0@)
                && self.model@[self.items@[i].0@] == self.items@[i].1
        &&& forall|k: Seq<u8>| #[trigger]
            self.model@.contains_key(k) ==> exists|i: int|
                0 <= i < self.items@.len() && #[trigger] self.items@[i].0@ == k
    }

    /// The entries in ascending order, and they hold exactly the map.
    pub proof fn lemma_entries(&self)
        requires
            self.wf(),
        ensures
            ascending(self.entries()),
            forall|i: int|
                0 <= i < self.entries().len() ==> #[trigger] self@.contains_key(self.entries()[i].0)
                    && self@[self.entries()[i].0] == self.entries()[i].1,
            forall|k: Seq<u8>| #[trigger]
                self@.contains_key(k) ==> exists|i: int|
                    0 <= i < self.entries().len() && #[trigger] self.entries()[i].0 == k,
    {
        assert forall|k: Seq<u8>| #[trigger] self@.contains_key(k) implies exists|i: int|
            0 <= i < self.entries().len() && #[trigger] self.entries()[i].0 == k by {
            let i = choose|i: int| 0 <= i < self.items@.len() && #[trigger] self.items@[i].0@ == k;
            assert(self.entries()[i].0 == k);
        }
    }

    pub fn new() -> (r: Self)
        ensures
            r.wf(),
            r@ == Map::<Seq<u8>, LogRecordPos>::empty(),
    {
        BTree { items: Vec::new(), model: Ghost(Map::empty()) }
    }

    /// Binary search: the index of `key`, or where it would be inserted.
    fn search(&self, key: &[u8]) -> (r: core::result::Result<usize, usize>)
        requires
            self.wf(),
        ensures
            r matches Ok(i) ==> i < self.items@.len() && self.items@[i as int].0@ == key@,
            r matches Err(i) ==> {
                &&& i <= self.items@.len()
                &&& forall|j: int| 0 <= j < i ==> lex_lt(#[trigger] self.items@[j].0@, key@)
                &&& forall|j: int|
                    i <= j < self.items@.len() ==> lex_lt(key@, #[trigger] self.items@[j].0@)
            },
    {
        let mut lo: usize = 0;
        let mut hi: usize = self.items.len();
        while lo < hi
            invariant
                self.wf(),
                lo <= hi <= self.items@.len(),
                forall|j: int| 0 <= j < lo ==> lex_lt(#[trigger] self.items@[j].0@, key@),
                forall|j: int| hi <= j < self.items@.len() ==> lex_lt(key@, #[trigger] self.items@[j].0@),
            decreases hi - lo,
        {
            let mid = lo + (hi - lo) / 2;
            let c = compare_bytes(self.items[mid].0.as_slice(), key);
            proof {
                lemma_cmp_basics(self.items@[mid as int].0@, key@);
            }
            if c == 0 {
                return Ok(mid);
            } else if c < 0 {
                assert forall|j: int| 0 <= j < mid + 1 implies lex_lt(
                    #[trigger] self.items@[j].0@,
                    key@,
                ) by {
                    if j < mid {
                        assert(self.entries()[j].0 == self.items@[j].0@);
                        assert(self.entries()[mid as int].0 == self.items@[mid as int].0@);
                        lemma_lex_lt_transitive(self.items@[j].0@, self.items@[mid as int].0@, key@);
                    }
                }
                lo = mid + 1;
            } else {
                assert forall|j: int| mid <= j < self.items@.len() implies lex_lt(
                    key@,
                    #[trigger] self.items@[j].0@,
                ) by {
                    if j > mid {
                        assert(self.entries()[j].0 == self.items@[j].0@);
                        assert(self.entries()[mid as int].0 == self.items@[mid as int].0@);
                        lemma_lex_lt_transitive(key@, self.items@[mid as int].0@, self.items@[j].0@);
                    }
                }
                hi = mid;
            }
        }
        Err(lo)
    }

    /// The position of `key`, if it is live.
    pub fn get(&self, key: Vec<u8>) -> (r: Option<LogRecordPos>)
        requires
            self.wf(),
        ensures
            r == (if self@.contains_key(key@) {
                Some(self@[key@])
            } else {
                None::<LogRecordPos>
            }),
    {
        match self.search(key.as_slice()) {
            Ok(i) => Some(self.items[i].1),
            Err(i) => {
                proof {
                    if self@.contains_key(key@) {
                        let j = choose|j: int|
                            0 <= j < self.items@.len() && #[trigger] self.items@[j].0@ == key@;
                        lemma_lex_lt_total(key@, key@);
                        if j < i {
                            assert(lex_lt(self.items@[j].0@, key@));
                        } else {
                            assert(lex_lt(key@, self.items@[j].0@));
                        }
                    }
                }
                None
            },
        }
    }

    /// Points `key` at `pos`; returns the position it replaced.
    pub fn put(&mut self, key: Vec<u8>, pos: LogRecordPos) -> (r: Option<LogRecordPos>)
        requires
            old(self).wf(),
        ensures
            final(self).wf(),
            final(self)@ == old(self)@.insert(key@, pos),
            r == (if old(self)@.contains_key(key@) {
                Some(old(self)@[key@])
            } else {
                None::<LogRecordPos>
            }),
    {
        let ghost k = key@;
        let ghost old_items = self.items@;
        match self.search(key.as_slice()) {
            Ok(i) => {
                let prev = self.items[i].1;
                self.items[i] = (key, pos);
                self.model = Ghost(self.model@.insert(k, pos));
                proof {
                    assert(self.entries() =~= old_items.map_values(
                        |e: (Vec<u8>, LogRecordPos)| (e.0@, e.1),
                    ).update(i as int, (k, pos)));
                    assert forall|a: int, b: int|
                        0 <= a < b < self.entries().len() implies lex_lt(
                        #[trigger] self.entries()[a].0,
                        #[trigger] self.entries()[b].0,
                    ) by {
                        assert(entries_of(old_items)[a].0 == self.entries()[a].0);
                        assert(entries_of(old_items)[b].0 == self.entries()[b].0);
                    }
                    assert forall|j: int| 0 <= j < self.items@.len() implies #[trigger] self.model@.contains_key(
                        self.items@[j].0@,
                    ) && self.model@[self.items@[j].0@] == self.items@[j].1 by {
                        if j != i {
                            assert(entries_of(old_items)[j].0 != entries_of(old_items)[i as int].0) by {
                                lemma_lex_lt_total(old_items[j].0@, old_items[i as int].0@);
                            }
                        }
                    }
                    assert forall|kk: Seq<u8>| #[trigger] self.model@.contains_key(kk) implies exists|j: int|
                        0 <= j < self.items@.len() && #[trigger] self.items@[j].0@ == kk by {
                        if kk == k {
                            assert(self.items@[i as int].0@ == kk);
                        } else {
                            let j = choose|j: int|
                                0 <= j < old_items.len() && #[trigger] old_items[j].0@ == kk;
                            assert(self.items@[j].0@ == kk);
                        }
                    }
                }
                Some(prev)
            },
            Err(i) => {
                proof {
                    if old(self)@.contains_key(k) {
                        let j = choose|j: int|
                            0 <= j < old_items.len() && #[trigger] old_items[j].0@ == k;
                        lemma_lex_lt_total(k, k);
                        if j < i {
                            assert(lex_lt(old_items[j].0@, k));
                        } else {
                            assert(lex_lt(k, old_items[j].0@));
                        }
                    }
                }
                self.items.insert(i, (key, pos));
                self.model = Ghost(self.model@.insert(k, pos));
                proof {
                    assert forall|a: int, b: int|
                        0 <= a < b < self.entries().len() implies lex_lt(
                        #[trigger] self.entries()[a].0,
                        #[trigger] self.entries()[b].0,
                    ) by {
                        let ea = self.items@[a].0@;
                        let eb = self.items@[b].0@;
                        assert(self.entries()[a].0 == ea);
                        assert(self.entries()[b].0 == eb);
                        if a < i && b < i {
                            assert(entries_of(old_items)[a].0 == ea);
                            assert(entries_of(old_items)[b].0 == eb);
                        } else if a < i && b == i {
                            assert(old_items[a].0@ == ea);
                        } else if a < i && b > i {
                            assert(old_items[b - 1].0@ == eb);
                            assert(old_items[a].0@ == ea);
                            lemma_lex_lt_transitive(ea, k, eb);
                        } else if a == i {
                            assert(old_items[b - 1].0@ == eb);
                        } else {
                            assert(entries_of(old_items)[a - 1].0 == ea);
                            assert(entries_of(old_items)[b - 1].0 == eb);
                        }
                    }
                    assert forall|j: int| 0 <= j < self.items@.len() implies #[trigger] self.model@.contains_key(
                        self.items@[j].0@,
                    ) && self.model@[self.items@[j].0@] == self.items@[j].1 by {
                        if j < i {
                            assert(self.items@[j] == old_items[j]);
                            lemma_lex_lt_total(old_items[j].0@, k);
                        } else if j > i {
                            assert(self.items@[j] == old_items[j - 1]);
                            lemma_lex_lt_total(old_items[j - 1].0@, k);
                        }
                    }
                    assert forall|kk: Seq<u8>| #[trigger] self.model@.contains_key(kk) implies exists|j: int|
                        0 <= j < self.items@.len() && #[trigger] self.items@[j].0@ == kk by {
                        if kk == k {
                            assert(self.items@[i as int].0@ == kk);
                        } else {
                            let j = choose|j: int|
                                0 <= j < old_items.len() && #[trigger] old_items[j].0@ == kk;
                            if j < i {
                                assert(self.items@[j].0@ == kk);
                            } else {
                                assert(self.items@[j + 1].0@ == kk);
                            }
                        }
                    }
                }
                None
            },
        }
    }

    /// Removes `key`; returns the position it had.
    #[verifier::spinoff_prover]
    #[verifier::rlimit(50)]
    pub fn delete(&mut self, key: Vec<u8>) -> (r: Option<LogRecordPos>)
        requires
            old(self).wf(),
        ensures
            final(self).wf(),
            final(self)@ == old(self)@.remove(key@),
            r == (if old(self)@.contains_key(key@) {
                Some(old(self)@[key@])
            } else {
                None::<LogRecordPos>
            }),
    {
        let ghost k = key@;
        let ghost old_items = self.items@;
        match self.search(key.as_slice()) {
            Ok(i) => {
                let (_, prev) = self.items.remove(i);
                self.model = Ghost(self.model@.remove(k));
                proof {
                    assert forall|a: int, b: int|
                        0 <= a < b < self.entries().len() implies lex_lt(
                        #[trigger] self.entries()[a].0,
                        #[trigger] self.entries()[b].0,
                    ) by {
                        let a0 = if a < i { a } else { a + 1 };
                        let b0 = if b < i { b } else { b + 1 };
                        assert(self.items@[a] == old_items[a0]);
                        assert(self.items@[b] == old_items[b0]);
                        assert(entries_of(old_items)[a0].0 == self.entries()[a].0);
                        assert(entries_of(old_items)[b0].0 == self.entries()[b].0);
                    }
                    assert forall|j: int| 0 <= j < self.items@.len() implies #[trigger] self.model@.contains_key(
                        self.items@[j].0@,
                    ) && self.model@[self.items@[j].0@] == self.items@[j].1 by {
                        let j0 = if j < i { j } else { j + 1 };
                        assert(self.items@[j] == old_items[j0]);
                        assert(entries_of(old_items)[j0].0 == old_items[j0].0@);
                        assert(entries_of(old_items)[i as int].0 == old_items[i as int].0@);
                        if j0 < i {
                            assert(lex_lt(entries_of(old_items)[j0].0, entries_of(old_items)[i as int].0));
                        } else {
                            assert(lex_lt(entries_of(old_items)[i as int].0, entries_of(old_items)[j0].0));
                        }
                        lemma_lex_lt_total(old_items[j0].0@, k);
                        assert(old(self).model@.contains_key(old_items[j0].0@));
                    }
                    assert forall|kk: Seq<u8>| #[trigger] self.model@.contains_key(kk) implies exists|j: int|
                        0 <= j < self.items@.len() && #[trigger] self.items@[j].0@ == kk by {
                        let j = choose|j: int|
                            0 <= j < old_items.len() && #[trigger] old_items[j].0@ == kk;
                        if j < i {
                            assert(self.items@[j].0@ == kk);
                        } else {
                            assert(j != i);
                            assert(self.items@[j - 1].0@ == kk);
                        }
                    }
                }
                Some(prev)
            },
            Err(i) => {
                proof {
                    if old(self)@.contains_key(k) {
                        let j = choose|j: int|
                            0 <= j < old_items.len() && #[trigger] old_items[j].0@ == k;
                        lemma_lex_lt_total(k, k);
                        if j < i {
                            assert(lex_lt(old_items[j].0@, k));
                        } else {
                            assert(lex_lt(k, old_items[j].0@));
                        }
                    }
                    assert(self.model@ =~= self.model@.remove(k));
                }
                None
            },
        }
    }

    /// Removes every key.
    pub fn clear(&mut self)
        ensures
            final(self).wf(),
            final(self)@ == Map::<Seq<u8>, LogRecordPos>::empty(),
    {
        self.items = Vec::new();
        self.model = Ghost(Map::empty());
        assert(self.entries() =~= Seq::<(Seq<u8>, LogRecordPos)>::empty());
    }

    /// The number of live keys.
    pub fn len(&self) -> (r: usize)
        ensures
            r == self.entries().len(),
    {
        self.items.len()
    }

    /// Every live key, ascending.
    pub fn list_keys(&self) -> (r: Vec<Vec<u8>>)
        requires
            self.wf(),
        ensures
            r@.len() == self.entries().len(),
            forall|i: int| 0 <= i < r@.len() ==> #[trigger] r@[i]@ == self.entries()[i].0,
    {
        let mut keys: Vec<Vec<u8>> = Vec::new();
        let mut i: usize = 0;
        while i < self.items.len()
            invariant
                i <= self.items@.len(),
                keys@.len() == i,
                forall|j: int| 0 <= j < i ==> #[trigger] keys@[j]@ == self.entries()[j].0,
            decreases self.items@.len() - i,
        {
            keys.push(clone_key(&self.items[i].0));
            i = i + 1;
        }
        keys
    }

    /// A snapshot of the entries, in the order the options ask for, that
    /// later writes do not change.
    pub fn iterator(&self, options: IteratorOptions) -> (r: IndexIterator)
        requires
            self.wf(),
        ensures
            r.wf(),
            r.entries() == (if options.reverse {
                reversed(self.entries())
            } else {
                self.entries()
            }),
            r.position() == 0,
            r.reverse() == options.reverse,
            r.prefix() == options.prefix@,
    {
        let n = self.items.len();
        let mut items: Vec<(Vec<u8>, LogRecordPos)> = Vec::new();
        let mut i: usize = 0;
        while i < n
            invariant
                n == self.items@.len(),
                i <= n,
                items@.len() == i,
                forall|j: int| 0 <= j < i ==> #[trigger] entries_of(items@)[j] == (if options.reverse {
                    reversed(self.entries())[j]
                } else {
                    self.entries()[j]
                }),
            decreases n - i,
        {
            let src = if options.reverse { n - 1 - i } else { i };
            let e = (clone_key(&self.items[src].0), self.items[src].1);
            let ghost prev = items@;
            items.push(e);
            proof {
                assert(entries_of(items@) =~= entries_of(prev).push((e.0@, e.1)));
                assert(self.entries()[src as int] == (self.items@[src as int].0@, self.items@[src as int].1));
            }
            i = i + 1;
        }
        let it = IndexIterator { items, curr_index: 0, options, start: Ghost(0), yielded: Ghost(Seq::empty()) };
        proof {
            let want = if options.reverse { reversed(self.entries()) } else { self.entries() };
            assert(it.entries() =~= want);
            assert(it.entries().subrange(0, 0) =~= Seq::<(Seq<u8>, LogRecordPos)>::empty());
            assert(ascending(self.entries()));
            if options.reverse {
                assert forall|a: int, b: int| 0 <= a < b < want.len() implies lex_lt(
                    #[trigger] want[b].0,
                    #[trigger] want[a].0,
                ) by {
                    assert(want[a] == self.entries()[n - 1 - a]);
                    assert(want[b] == self.entries()[n - 1 - b]);
                }
            }
        }
        it
    }
}

impl Indexer for BTree {
    open spec fn index_map(&self) -> Map<Seq<u8>, LogRecordPos> {
        self@
    }

    open spec fn well_formed(&self) -> bool {
        self.wf()
    }

    fn put(&mut self, key: Vec<u8>, pos: LogRecordPos) -> (r: Option<LogRecordPos>) {
        BTree::put(self, key, pos)
    }

    fn get(&self, key: Vec<u8>) -> (r: Option<LogRecordPos>) {
        BTree::get(self, key)
    }

    fn delete(&mut self, key: Vec<u8>) -> (r: Option<LogRecordPos>) {
        BTree::delete(self, key)
    }

    #[verifier::spinoff_prover]
    fn list_keys(&self) -> (r: Vec<Vec<u8>>) {
        let r = BTree::list_keys(self);
        proof {
            self.lemma_entries();
            assert(lists_in_order(self.index_map(), self.entries()));
            assert(forall|i: int| 0 <= i < r@.len() ==> #[trigger] r@[i]@ == self.entries()[i].0);
            assert(keys_listed(self.index_map(), r@));
        }
        r
    }

    fn iterator(&self, options: IteratorOptions) -> (r: IndexIterator) {
        let r = BTree::iterator(self, options);
        proof {
            self.lemma_entries();
            if options.reverse {
                assert(reversed(r.entries()) =~= self.entries());
            }
        }
        r
    }

    fn clear(&mut self) {
        BTree::clear(self)
    }
}

/// A cursor over a snapshot of the key directory, with a key prefix that
/// filters what it yields.
pub struct IndexIterator {
    items: Vec<(Vec<u8>, LogRecordPos)>,
    curr_index: usize,
    options: IteratorOptions,
    start: Ghost<int>,
    yielded: Ghost<Seq<Seq<u8>>>,
}

/// The keys of `es` that start with `p`, in order.
pub open spec fn prefixed_keys(es: Seq<(Seq<u8>, LogRecordPos)>, p: Seq<u8>) -> Seq<Seq<u8>>
    decreases es.len(),
{
    if es.len() == 0 {
        Seq::empty()
    } else {
        let prev = prefixed_keys(es.drop_last(), p);
        if has_prefix(es.last().0, p) {
            prev.push(es.last().0)
        } else {
            prev
        }
    }
}

/// `a` comes strictly before `b` in ascending order, or in descending
/// order when `rev`.
pub open spec fn ordered_before(a: Seq<u8>, b: Seq<u8>, rev: bool) -> bool {
    if rev {
        lex_lt(b, a)
    } else {
        lex_lt(a, b)
    }
}

/// The prefixed keys of a strictly ordered snapshot: each starts with the
/// prefix, they keep the snapshot's strict order, and they are exactly the
/// snapshot's keys that start with the prefix.
pub proof fn lemma_prefixed_keys(es: Seq<(Seq<u8>, LogRecordPos)>, p: Seq<u8>, rev: bool)
    requires
        forall|i: int, j: int| 0 <= i < j < es.len() ==> ordered_before(#[trigger] es[i].0, #[trigger] es[j].0, rev),
    ensures
        forall|i: int| 0 <= i < prefixed_keys(es, p).len() ==> has_prefix(#[trigger] prefixed_keys(es, p)[i], p),
        forall|i: int, j: int|
            0 <= i < j < prefixed_keys(es, p).len() ==> ordered_before(
                #[trigger] prefixed_keys(es, p)[i],
                #[trigger] prefixed_keys(es, p)[j],
                rev,
            ),
        forall|k: Seq<u8>|
            prefixed_keys(es, p).contains(k) <==> (has_prefix(k, p) && exists|i: int|
                0 <= i < es.len() && #[trigger] es[i].0 == k),
    decreases es.len(),
{
    if es.len() > 0 {
        let prev = es.drop_last();
        lemma_prefixed_keys(prev, p, rev);
        let ks = prefixed_keys(es, p);
        let pk = prefixed_keys(prev, p);
        let last = es.last().0;
        assert forall|k: Seq<u8>| ks.contains(k) <==> (has_prefix(k, p) && exists|i: int|
            0 <= i < es.len() && #[trigger] es[i].0 == k) by {
            if ks.contains(k) {
                if pk.contains(k) {
                    let i = choose|i: int| 0 <= i < prev.len() && #[trigger] prev[i].0 == k;
                    assert(es[i].0 == k);
                } else {
                    assert(k == last);
                    assert(es[es.len() - 1].0 == k);
                }
            }
            if has_prefix(k, p) && exists|i: int| 0 <= i < es.len() && #[trigger] es[i].0 == k {
                let i = choose|i: int| 0 <= i < es.len() && #[trigger] es[i].0 == k;
                if i < es.len() - 1 {
                    assert(prev[i].0 == k);
                    assert(pk.contains(k));
                    let m = choose|m: int| 0 <= m < pk.len() && pk[m] == k;
                    assert(ks[m] == k);
                } else {
                    assert(ks[ks.len() - 1] == k);
                }
            }
        }
        if has_prefix(last, p) {
            assert forall|i: int, j: int| 0 <= i < j < ks.len() implies ordered_before(
                #[trigger] ks[i],
                #[trigger] ks[j],
                rev,
            ) by {
                if j == ks.len() - 1 {
                    assert(pk.contains(ks[i]));
                    let m = choose|m: int| 0 <= m < prev.len() && #[trigger] prev[m].0 == ks[i];
                    assert(es[m].0 == ks[i]);
                    assert(ordered_before(es[m].0, es[es.len() - 1].0, rev));
                } else {
                    assert(ks[i] == pk[i] && ks[j] == pk[j]);
                }
            }
            assert forall|i: int| 0 <= i < ks.len() implies has_prefix(#[trigger] ks[i], p) by {
                if i < ks.len() - 1 {
                    assert(ks[i] == pk[i]);
                }
            }
        }
    }
}

impl IndexIterator {
    /// The snapshot, in iteration order.
    pub closed spec fn entries(&self) -> Seq<(Seq<u8>, LogRecordPos)> {
        entries_of(self.items@)
    }

    /// The index of the next entry to look at.
    pub closed spec fn position(&self) -> int {
        self.curr_index as int
    }

    pub closed spec fn reverse(&self) -> bool {
        self.options.reverse
    }

    pub closed spec fn prefix(&self) -> Seq<u8> {
        self.options.prefix@
    }

    /// Where the current run of `next` calls began: zero for a new or
    /// rewound iterator, the sought position after `seek`.
    pub closed spec fn run_start(&self) -> int {
        self.start@
    }

    /// The keys that `next` has yielded in the current run, in order.
    pub closed spec fn yielded(&self) -> Seq<Seq<u8>> {
        self.yielded@
    }

    /// Entry `e` comes before `key` in iteration order.
    pub open spec fn before(&self, e: Seq<u8>, key: Seq<u8>) -> bool {
        if self.reverse() {
            lex_lt(key, e)
        } else {
            lex_lt(e, key)
        }
    }

    /// The snapshot is strictly ordered in iteration order.
    pub open spec fn wf(&self) -> bool {
        &&& 0 <= self.run_start() <= self.position() <= self.entries().len()
        &&& self.yielded() == prefixed_keys(self.entries().subrange(self.run_start(), self.position()), self.prefix())
        &&& if self.reverse() {
            descending(self.entries())
        } else {
            ascending(self.entries())
        }
    }

    /// Iteration order: entries further along come strictly later in key
    /// order (ascending) or strictly earlier (descending), so keys that
    /// `next` yields one after another never repeat or go back.
    pub proof fn lemma_iteration_order(&self, i: int, j: int)
        requires
            self.wf(),
            0 <= i < j < self.entries().len(),
        ensures
            !self.reverse() ==> lex_lt(self.entries()[i].0, self.entries()[j].0),
            self.reverse() ==> lex_lt(self.entries()[j].0, self.entries()[i].0),
    {
    }

    /// An iterator over entries given in ascending key order.
    pub fn from_ascending(items: Vec<(Vec<u8>, LogRecordPos)>, options: IteratorOptions) -> (r: IndexIterator)
        requires
            ascending(entries_of(items@)),
        ensures
            r.wf(),
            r.entries() == (if options.reverse {
                reversed(entries_of(items@))
            } else {
                entries_of(items@)
            }),
            r.position() == 0,
            r.reverse() == options.reverse,
            r.prefix() == options.prefix@,
    {
        let ghost es = entries_of(items@);
        if !options.reverse {
            let it = IndexIterator { items, curr_index: 0, options, start: Ghost(0), yielded: Ghost(Seq::empty()) };
            assert(it.entries().subrange(0, 0) =~= Seq::<(Seq<u8>, LogRecordPos)>::empty());
            return it;
        }
        let mut src = items;
        let mut out: Vec<(Vec<u8>, LogRecordPos)> = Vec::new();
        let n = src.len();
        while src.len() > 0
            invariant
                n == es.len(),
                entries_of(src@) == es.subrange(0, src@.len() as int),
                out@.len() + src@.len() == n,
                forall|j: int| 0 <= j < out@.len() ==> #[trigger] entries_of(out@)[j] == reversed(es)[j],
            decreases src@.len(),
        {
            let ghost before_src = src@;
            let ghost before_out = out@;
            let e = src.pop().unwrap();
            out.push(e);
            proof {
                assert(before_src == src@.push(e));
                assert(entries_of(src@) =~= es.subrange(0, src@.len() as int)) by {
                    assert(entries_of(before_src) =~= entries_of(src@).push((e.0@, e.1)));
                }
                assert(entries_of(before_src)[src@.len() as int] == (e.0@, e.1));
                assert(entries_of(out@) =~= entries_of(before_out).push((e.0@, e.1)));
            }
        }
        let it = IndexIterator { items: out, curr_index: 0, options, start: Ghost(0), yielded: Ghost(Seq::empty()) };
        proof {
            let want = reversed(es);
            assert(it.entries() =~= want);
            assert(it.entries().subrange(0, 0) =~= Seq::<(Seq<u8>, LogRecordPos)>::empty());
            assert forall|a: int, b: int| 0 <= a < b < want.len() implies lex_lt(
                #[trigger] want[b].0,
                #[trigger] want[a].0,
            ) by {
                assert(want[a] == es[n - 1 - a]);
                assert(want[b] == es[n - 1 - b]);
            }
        }
        it
    }

    /// A run of `next` calls from a new or rewound iterator up to `None`
    /// has yielded exactly the keys of the snapshot that start with the
    /// prefix, in iteration order.
    pub proof fn lemma_full_run(&self)
        requires
            self.wf(),
            self.run_start() == 0,
            self.position() == self.entries().len(),
        ensures
            self.yielded() == prefixed_keys(self.entries(), self.prefix()),
    {
        assert(self.entries().subrange(0, self.entries().len() as int) =~= self.entries());
    }

    /// Iteration order over a whole run: the keys that a run of `next` calls
    /// from a new iterator yields up to `None` all start with the prefix,
    /// strictly ascend (strictly descend when reversed), and are exactly
    /// the keys of the directory `m` it was made from that start with the
    /// prefix.
    pub proof fn lemma_run_matches_directory(&self, m: Map<Seq<u8>, LogRecordPos>)
        requires
            self.wf(),
            self.run_start() == 0,
            self.position() == self.entries().len(),
            lists_in_order(m, if self.reverse() { reversed(self.entries()) } else { self.entries() }),
        ensures
            forall|i: int| 0 <= i < self.yielded().len() ==> has_prefix(#[trigger] self.yielded()[i], self.prefix()),
            forall|i: int, j: int|
                0 <= i < j < self.yielded().len() ==> ordered_before(
                    #[trigger] self.yielded()[i],
                    #[trigger] self.yielded()[j],
                    self.reverse(),
                ),
            forall|k: Seq<u8>| self.yielded().contains(k) <==> (m.contains_key(k) && has_prefix(k, self.prefix())),
    {
        self.lemma_full_run();
        let es = self.entries();
        let n = es.len();
        assert forall|i: int, j: int| 0 <= i < j < es.len() implies ordered_before(
            #[trigger] es[i].0,
            #[trigger] es[j].0,
            self.reverse(),
        ) by {}
        lemma_prefixed_keys(es, self.prefix(), self.reverse());
        let ls = if self.reverse() { reversed(es) } else { es };
        assert forall|k: Seq<u8>| (exists|i: int| 0 <= i < es.len() && #[trigger] es[i].0 == k) <==> m.contains_key(k) by {
            if exists|i: int| 0 <= i < es.len() && #[trigger] es[i].0 == k {
                let i = choose|i: int| 0 <= i < es.len() && #[trigger] es[i].0 == k;
                let li = if self.reverse() { n - 1 - i } else { i };
                assert(ls[li] == es[i]);
                assert(m.contains_key(ls[li].0));
            }
            if m.contains_key(k) {
                let li = choose|li: int| 0 <= li < ls.len() && #[trigger] ls[li].0 == k;
                let i = if self.reverse() { n - 1 - li } else { li };
                assert(ls[li] == es[i]);
            }
        }
    }

    /// Back to the first entry.
    pub fn rewind(&mut self)
        requires
            old(self).wf(),
        ensures
            final(self).wf(),
            final(self).position() == 0,
            final(self).run_start() == 0,
            final(self).yielded().len() == 0,
            final(self).entries() == old(self).entries(),
            final(self).reverse() == old(self).reverse(),
            final(self).prefix() == old(self).prefix(),
    {
        self.curr_index = 0;
        self.start = Ghost(0);
        self.yielded = Ghost(Seq::empty());
        assert(self.entries().subrange(0, 0) =~= Seq::<(Seq<u8>, LogRecordPos)>::empty());
    }

    /// Moves to the first entry that is not before `key` in iteration order:
    /// `key` itself if present, else the next greater key (ascending) or the
    /// next smaller one (descending).
    pub fn seek(&mut self, key: Vec<u8>)
        requires
            old(self).wf(),
        ensures
            final(self).wf(),
            final(self).entries() == old(self).entries(),
            final(self).reverse() == old(self).reverse(),
            final(self).prefix() == old(self).prefix(),
            final(self).run_start() == final(self).position(),
            final(self).yielded().len() == 0,
            forall|j: int| 0 <= j < final(self).position() ==> old(self).before(
                #[trigger] old(self).entries()[j].0,
                key@,
            ),
            forall|j: int|
                final(self).position() <= j < old(self).entries().len() ==> !old(self).before(
                    #[trigger] old(self).entries()[j].0,
                    key@,
                ),
    {
        let ghost es = self.entries();
        let mut lo: usize = 0;
        let mut hi: usize = self.items.len();
        while lo < hi
            invariant
                es == entries_of(self.items@),
                self.wf(),
                lo <= hi <= self.items@.len(),
                forall|j: int| 0 <= j < lo ==> self.before(#[trigger] es[j].0, key@),
                forall|j: int| hi <= j < es.len() ==> !self.before(#[trigger] es[j].0, key@),
            decreases hi - lo,
        {
            let mid = lo + (hi - lo) / 2;
            let c = compare_bytes(self.items[mid].0.as_slice(), key.as_slice());
            let ghost m = mid as int;
            proof {
                lemma_cmp_basics(es[m].0, key@);
                assert(es[m].0 == self.items@[m].0@);
            }
            let is_before = if self.options.reverse { c > 0 } else { c < 0 };
            if is_before {
                assert forall|j: int| 0 <= j < mid + 1 implies self.before(#[trigger] es[j].0, key@) by {
                    if j < m {
                        if self.reverse() {
                            lemma_lex_lt_transitive(key@, es[m].0, es[j].0);
                        } else {
                            lemma_lex_lt_transitive(es[j].0, es[m].0, key@);
                        }
                    }
                }
                lo = mid + 1;
            } else {
                assert forall|j: int| m <= j < es.len() implies !self.before(#[trigger] es[j].0, key@) by {
                    if j > m {
                        lemma_lex_lt_total(es[j].0, key@);
                        lemma_lex_lt_total(es[m].0, key@);
                        if self.reverse() {
                            if lex_lt(key@, es[j].0) {
                                lemma_lex_lt_transitive(key@, es[j].0, es[m].0);
                            }
                        } else {
                            if lex_lt(es[j].0, key@) {
                                lemma_lex_lt_transitive(es[m].0, es[j].0, key@);
                            }
                        }
                    }
                }
                hi = mid;
            }
        }
        self.curr_index = lo;
        self.start = Ghost(lo as int);
        self.yielded = Ghost(Seq::empty());
        assert(self.entries().subrange(lo as int, lo as int) =~= Seq::<(Seq<u8>, LogRecordPos)>::empty());
    }

    /// The next entry whose key starts with the prefix, skipping the others;
    /// `None` once the snapshot is used up.
    #[verifier::spinoff_prover]
    #[verifier::rlimit(50)]
    pub fn next(&mut self) -> (r: Option<(Vec<u8>, LogRecordPos)>)
        requires
            old(self).wf(),
        ensures
            final(self).wf(),
            final(self).entries() == old(self).entries(),
            final(self).reverse() == old(self).reverse(),
            final(self).prefix() == old(self).prefix(),
            final(self).run_start() == old(self).run_start(),
            r is None ==> final(self).yielded() == old(self).yielded(),
            r matches Some((k, p)) ==> final(self).yielded() == old(self).yielded().push(k@),
            r is None ==> {
                &&& final(self).position() == old(self).entries().len()
                &&& forall|j: int|
                    old(self).position() <= j < old(self).entries().len() ==> !has_prefix(
                        #[trigger] old(self).entries()[j].0,
                        old(self).prefix(),
                    )
            },
            r matches Some((k, p)) ==> old(self).position() < final(self).position(),
            r matches Some((k, p)) ==> (k@, p) == old(self).entries()[final(self).position() - 1],
            r matches Some((k, p)) ==> has_prefix(k@, old(self).prefix()),
            r matches Some((k, p)) ==> {
                forall|j: int|
                    old(self).position() <= j < final(self).position() - 1 ==> !has_prefix(
                        #[trigger] old(self).entries()[j].0,
                        old(self).prefix(),
                    )
            },
    {
        let ghost start = self.curr_index as int;
        while self.curr_index < self.items.len()
            invariant
                self.wf(),
                self.entries() == old(self).entries(),
                self.reverse() == old(self).reverse(),
                self.prefix() == old(self).prefix(),
                start == old(self).position(),
                start <= self.position(),
                self.run_start() == old(self).run_start(),
                self.yielded() == old(self).yielded(),
                forall|j: int|
                    start <= j < self.position() ==> !has_prefix(
                        #[trigger] self.entries()[j].0,
                        self.prefix(),
                    ),
            decreases self.items@.len() - self.curr_index,
        {
            let i = self.curr_index;
            let ghost sub = self.entries().subrange(self.run_start(), i + 1);
            proof {
                assert(sub.drop_last() =~= self.entries().subrange(self.run_start(), i as int));
                assert(sub.last() == self.entries()[i as int]);
                assert(self.entries()[i as int] == (self.items@[i as int].0@, self.items@[i as int].1));
            }
            let found = starts_with(self.items[i].0.as_slice(), self.options.prefix.as_slice());
            self.curr_index = i + 1;
            if found {
                let key = clone_key(&self.items[i].0);
                self.yielded = Ghost(self.yielded@.push(key@));
                return Some((key, self.items[i].1));
            }
        }
        None
    }
}

/// An in-memory key directory of either kind.
pub enum MemIndex {
    BTree(BTree),
    SkipList(SkipList),
}

impl Indexer for MemIndex {
    open spec fn index_map(&self) -> Map<Seq<u8>, LogRecordPos> {
        match self {
            MemIndex::BTree(b) => b.index_map(),
            MemIndex::SkipList(s) => s.index_map(),
        }
    }

    open spec fn well_formed(&self) -> bool {
        match self {
            MemIndex::BTree(b) => b.well_formed(),
            MemIndex::SkipList(s) => s.well_formed(),
        }
    }

    fn put(&mut self, key: Vec<u8>, pos: LogRecordPos) -> (r: Option<LogRecordPos>) {
        match self {
            MemIndex::BTree(b) => Indexer::put(b, key, pos),
            MemIndex::SkipList(s) => s.put(key, pos),
        }
    }

    fn get(&self, key: Vec<u8>) -> (r: Option<LogRecordPos>) {
        match self {
            MemIndex::BTree(b) => Indexer::get(b, key),
            MemIndex::SkipList(s) => s.get(key),
        }
    }

    fn delete(&mut self, key: Vec<u8>) -> (r: Option<LogRecordPos>) {
        match self {
            MemIndex::BTree(b) => Indexer::delete(b, key),
            MemIndex::SkipList(s) => s.delete(key),
        }
    }

    fn list_keys(&self) -> (r: Vec<Vec<u8>>) {
        match self {
            MemIndex::BTree(b) => Indexer::list_keys(b),
            MemIndex::SkipList(s) => s.list_keys(),
        }
    }

    fn iterator(&self, options: IteratorOptions) -> (r: IndexIterator) {
        match self {
            MemIndex::BTree(b) => Indexer::iterator(b, options),
            MemIndex::SkipList(s) => s.iterator(options),
        }
    }

    fn clear(&mut self) {
        match self {
            MemIndex::BTree(b) => Indexer::clear(b),
            MemIndex::SkipList(s) => s.clear(),
        }
    }
}

} // verus!
