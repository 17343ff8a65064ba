//! The key directory kept in a concurrent skip list of crossbeam.
use vstd::prelude::*;
use crossbeam_skiplist::SkipMap;
use crate::index::{entries_of, lists_in_order, reversed, IndexIterator, Indexer};
use crate::log_record::LogRecordPos;
use crate::options::IteratorOptions;
use crate::order::lex_lt;

verus! {

#[verifier::external_type_specification]
#[verifier::external_body]
#[verifier::reject_recursive_types(K)]
#[verifier::reject_recursive_types(V)]
pub struct ExSkipMap<K, V>(SkipMap<K, V>);

/// A position as the skip list stores it: file id, offset, size.
pub type PosTuple = (u32, u64, u32);

/// What a skip list holds: each key with its value.
pub uninterp spec fn skipmap_contents(m: SkipMap<Vec<u8>, PosTuple>) -> Map<Seq<u8>, PosTuple>;

/// The contents of an empty skip list.
pub open spec fn no_entries() -> Map<Seq<u8>, PosTuple> {
    Map::empty()
}

/// Relies on SkipMap::new: an empty map.
#[verifier::external_body]
fn skipmap_new() -> (r: SkipMap<Vec<u8>, PosTuple>)
    ensures
        skipmap_contents(r) == no_entries(),
{
    SkipMap::new()
}

/// Relies on SkipMap::insert: an entry already there for the key is
/// replaced.
#[verifier::external_body]
fn skipmap_insert(m: &mut SkipMap<Vec<u8>, PosTuple>, key: Vec<u8>, v: PosTuple)
    ensures
        skipmap_contents(*final(m)) == skipmap_contents(*old(m)).insert(key@, v),
{
    m.insert(key, v);
}

/// Relies on SkipMap::get: the entry for the key, if there is one.
#[verifier::external_body]
fn skipmap_get(m: &SkipMap<Vec<u8>, PosTuple>, key: &Vec<u8>) -> (r: Option<PosTuple>)
    ensures
        r == (if skipmap_contents(*m).contains_key(key@) {
            Some(skipmap_contents(*m)[key@])
        } else {
            None::<PosTuple>
        }),
{
    m.get(key).map(|e| *e.value())
}

/// Relies on SkipMap::remove: takes out the entry for the key and returns
/// it, if there is one.
#[verifier::external_body]
fn skipmap_remove(m: &mut SkipMap<Vec<u8>, PosTuple>, key: &Vec<u8>) -> (r: Option<PosTuple>)
    ensures
        skipmap_contents(*final(m)) == skipmap_contents(*old(m)).remove(key@),
        r == (if skipmap_contents(*old(m)).contains_key(key@) {
            Some(skipmap_contents(*old(m))[key@])
        } else {
            None::<PosTuple>
        }),
{
    m.remove(key).map(|e| *e.value())
}

/// Relies on SkipMap::clear: every entry is removed.
#[verifier::external_body]
fn skipmap_clear(m: &mut SkipMap<Vec<u8>, PosTuple>)
    ensures
        skipmap_contents(*final(m)) == no_entries(),
{
    m.clear();
}

/// Relies on SkipMap::iter: it yields every entry once, in ascending key
/// order, and keys of `Vec<u8>` order byte-lexicographically.
#[verifier::external_body]
fn skipmap_entries(m: &SkipMap<Vec<u8>, PosTuple>) -> (r: Vec<(Vec<u8>, PosTuple)>)
    ensures
        forall|i: int, j: int| 0 <= i < j < r@.len() ==> lex_lt(#[trigger] r@[i].0@, #[trigger] r@[j].0@),
        forall|i: int|
            0 <= i < r@.len() ==> #[trigger] skipmap_contents(*m).contains_key(r@[i].0@) && skipmap_contents(
                *m,
            )[r@[i].0@] == r@[i].1,
        forall|k: Seq<u8>| #[trigger]
            skipmap_contents(*m).contains_key(k) ==> exists|i: int|
                0 <= i < r@.len() && #[trigger] r@[i].0@ == k,
{
    m.iter().map(|e| (e.key().clone(), *e.value())).collect()
}

pub open spec fn pos_of(t: PosTuple) -> LogRecordPos {
    LogRecordPos { file_id: t.0, offset: t.1, size: t.2 }
}

/// The iterator of a skip-list directory.
pub type SkipListIterator = IndexIterator;

/// The key directory in a lock-free skip list.
pub struct SkipList {
    skl: SkipMap<Vec<u8>, PosTuple>,
}

impl SkipList {
    pub closed spec fn contents(&self) -> Map<Seq<u8>, PosTuple> {
        skipmap_contents(self.skl)
    }

    /// The directory as a map from key to position.
    pub open spec fn positions(&self) -> Map<Seq<u8>, LogRecordPos> {
        Map::new(|k: Seq<u8>| self.contents().contains_key(k), |k: Seq<u8>| pos_of(self.contents()[k]))
    }

    pub fn new() -> (r: Self)
        ensures
            r.positions() == Map::<Seq<u8>, LogRecordPos>::empty(),
    {
        let r = SkipList { skl: skipmap_new() };
        assert(r.positions() =~= Map::<Seq<u8>, LogRecordPos>::empty());
        r
    }
}

impl Indexer for SkipList {
    open spec fn index_map(&self) -> Map<Seq<u8>, LogRecordPos> {
        self.positions()
    }

    open spec fn well_formed(&self) -> bool {
        true
    }

    fn put(&mut self, key: Vec<u8>, pos: LogRecordPos) -> (r: Option<LogRecordPos>) {
        let prev = skipmap_get(&self.skl, &key);
        let ghost k = key@;
        skipmap_insert(&mut self.skl, key, (pos.file_id, pos.offset, pos.size));
        assert(self.positions() =~= old(self).positions().insert(k, pos));
        match prev {
            Some(t) => Some(LogRecordPos { file_id: t.0, offset: t.1, size: t.2 }),
            None => None,
        }
    }

    fn get(&self, key: Vec<u8>) -> (r: Option<LogRecordPos>) {
        match skipmap_get(&self.skl, &key) {
            Some(t) => Some(LogRecordPos { file_id: t.0, offset: t.1, size: t.2 }),
            None => None,
        }
    }

    fn delete(&mut self, key: Vec<u8>) -> (r: Option<LogRecordPos>) {
        let prev = skipmap_remove(&mut self.skl, &key);
        assert(self.positions() =~= old(self).positions().remove(key@));
        match prev {
            Some(t) => Some(LogRecordPos { file_id: t.0, offset: t.1, size: t.2 }),
            None => None,
        }
    }

    fn list_keys(&self) -> (r: Vec<Vec<u8>>) {
        let entries = skipmap_entries(&self.skl);
        let mut keys: Vec<Vec<u8>> = Vec::new();
        let mut i: usize = 0;
        while i < entries.len()
            invariant
                i <= entries@.len(),
                keys@.len() == i,
                forall|j: int| 0 <= j < i ==> #[trigger] keys@[j]@ == entries@[j].0@,
            decreases entries@.len() - i,
        {
            keys.push(crate::index::clone_key(&entries[i].0));
            i = i + 1;
        }
        proof {
            let es = Seq::new(entries@.len(), |j: int| (entries@[j].0@, pos_of(entries@[j].1)));
            assert forall|a: int| 0 <= a < es.len() implies #[trigger] self.index_map().contains_key(es[a].0)
                && self.index_map()[es[a].0] == es[a].1 by {
                assert(self.contents().contains_key(entries@[a].0@));
            }
            assert forall|k: Seq<u8>| #[trigger] self.index_map().contains_key(k) implies exists|a: int|
                0 <= a < es.len() && #[trigger] es[a].0 == k by {
                assert(self.contents().contains_key(k));
                let a = choose|a: int| 0 <= a < entries@.len() && #[trigger] entries@[a].0@ == k;
                assert(es[a].0 == k);
            }
            assert(lists_in_order(self.index_map(), es));
            assert(forall|j: int| 0 <= j < keys@.len() ==> #[trigger] keys@[j]@ == es[j].0);
            assert(crate::index::keys_listed(self.index_map(), keys@));
        }
        keys
    }

    fn iterator(&self, options: IteratorOptions) -> (r: IndexIterator) {
        let entries = skipmap_entries(&self.skl);
        let mut items: Vec<(Vec<u8>, LogRecordPos)> = Vec::new();
        let mut i: usize = 0;
        while i < entries.len()
            invariant
                i <= entries@.len(),
                items@.len() == i,
                forall|j: int| 0 <= j < i ==> #[trigger] entries_of(items@)[j] == (entries@[j].0@, pos_of(entries@[j].1)),
            decreases entries@.len() - i,
        {
            let t = entries[i].1;
            let ghost before = items@;
            items.push((crate::index::clone_key(&entries[i].0), LogRecordPos { file_id: t.0, offset: t.1, size: t.2 }));
            proof {
                assert(entries_of(items@) =~= entries_of(before).push((entries@[i as int].0@, pos_of(t))));
            }
            i = i + 1;
        }
        let ghost es = entries_of(items@);
        proof {
            assert forall|a: int, b: int| 0 <= a < b < es.len() implies lex_lt(#[trigger] es[a].0, #[trigger] es[b].0) by {
                assert(es[a].0 == entries@[a].0@);
                assert(es[b].0 == entries@[b].0@);
            }
            assert forall|a: int| 0 <= a < es.len() implies #[trigger] self.index_map().contains_key(es[a].0)
                && self.index_map()[es[a].0] == es[a].1 by {
                assert(self.contents().contains_key(entries@[a].0@));
            }
            assert forall|k: Seq<u8>| #[trigger] self.index_map().contains_key(k) implies exists|a: int|
                0 <= a < es.len() && #[trigger] es[a].0 == k by {
                assert(self.contents().contains_key(k));
                let a = choose|a: int| 0 <= a < entries@.len() && #[trigger] entries@[a].0@ == k;
                assert(es[a].0 == k);
            }
        }
        let r = IndexIterator::from_ascending(items, options);
        proof {
            if options.reverse {
                assert(reversed(r.entries()) =~= es);
            }
        }
        r
    }

    fn clear(&mut self) {
        skipmap_clear(&mut self.skl);
        assert(self.positions() =~= Map::<Seq<u8>, LogRecordPos>::empty());
    }
}

} // verus!
