use crate::bytes_ext::bytes_view;
use vstd::prelude::*;

verus! {

/// A stored entry: the payload bytes and an absolute expiry time in epoch
/// milliseconds, where zero means the entry never expires.
#[derive(Clone)]
pub struct DBValue {
    pub value: bytes::Bytes,
    pub expiration: usize,
}

/// The model of a stored entry: its bytes and its absolute expiry.
#[verifier::ext_equal]
pub struct EntryModel {
    pub value: Seq<u8>,
    pub expiration: usize,
}

impl View for DBValue {
    type V = EntryModel;

    open spec fn view(&self) -> EntryModel {
        EntryModel { value: bytes_view(self.value), expiration: self.expiration }
    }
}

/// An entry is expired when it has an expiry time that has passed. An
/// entry written without an expiry (`expiration == 0`) never expires.
pub open spec fn spec_is_expired(e: EntryModel, now: usize) -> bool {
    e.expiration != 0 && e.expiration <= now
}

impl DBValue {
    /// Builds an entry: a positive delay becomes the absolute expiry
    /// `now + expiration`; a zero delay means no expiry.
    pub fn with_expiration(value: bytes::Bytes, expiration: usize, now: usize) -> (r: DBValue)
        requires
            expiration > 0 ==> now + expiration <= usize::MAX,
        ensures
            r@ == (EntryModel {
                value: bytes_view(value),
                expiration: if expiration > 0 {
                    (now + expiration) as usize
                } else {
                    0
                },
            }),
    {
        if expiration > 0 {
            DBValue { value, expiration: now + expiration }
        } else {
            DBValue { value, expiration: 0 }
        }
    }

    /// Whether this entry is expired at the given time.
    pub fn is_expired(&self, now: usize) -> (r: bool)
        ensures
            r == spec_is_expired(self@, now),
    {
        self.expiration != 0 && self.expiration <= now
    }
}

/// The mapping that a key-entry list denotes: later entries win.
pub open spec fn map_of(entries: Seq<(Vec<u8>, DBValue)>) -> Map<Seq<u8>, EntryModel>
    decreases entries.len(),
{
    if entries.len() == 0 {
        Map::empty()
    } else {
        map_of(entries.drop_last()).insert(entries.last().0@, entries.last().1@)
    }
}

/// The shared keyspace: a mapping from key to stored entry. Entries are
/// created and overwritten only by `insert` and read only by `get`;
/// expiry is checked lazily by the readers, never by a sweep.
pub struct Store {
    pub entries: Vec<(Vec<u8>, DBValue)>,
}

impl View for Store {
    type V = Map<Seq<u8>, EntryModel>;

    open spec fn view(&self) -> Map<Seq<u8>, EntryModel> {
        map_of(self.entries@)
    }
}

/// No key occurs twice in the entry list.
pub open spec fn keys_unique(entries: Seq<(Vec<u8>, DBValue)>) -> bool {
    forall|i: int, j: int|
        0 <= i < j < entries.len() ==> (#[trigger] entries[i]).0@ != (#[trigger] entries[j]).0@
}

/// A key that occurs nowhere in the list is not in its mapping.
proof fn lemma_map_of_absent(entries: Seq<(Vec<u8>, DBValue)>, k: Seq<u8>)
    requires
        forall|i: int| 0 <= i < entries.len() ==> (#[trigger] entries[i]).0@ != k,
    ensures
        !map_of(entries).contains_key(k),
    decreases entries.len(),
{
    if entries.len() > 0 {
        lemma_map_of_absent(entries.drop_last(), k);
    }
}

/// In a list without repeated keys, the mapping sends each listed key to
/// its listed entry.
proof fn lemma_map_of_index(entries: Seq<(Vec<u8>, DBValue)>, i: int)
    requires
        keys_unique(entries),
        0 <= i < entries.len(),
    ensures
        map_of(entries).contains_key(entries[i].0@),
        map_of(entries)[entries[i].0@] == entries[i].1@,
    decreases entries.len(),
{
    if i < entries.len() - 1 {
        lemma_map_of_index(entries.drop_last(), i);
    }
}

/// Removing the one occurrence of a key removes exactly that key from
/// the mapping.
proof fn lemma_map_of_remove(entries: Seq<(Vec<u8>, DBValue)>, i: int)
    requires
        keys_unique(entries),
        0 <= i < entries.len(),
    ensures
        map_of(entries.remove(i)) == map_of(entries).remove(entries[i].0@),
    decreases entries.len(),
{
    let k = entries[i].0@;
    if i == entries.len() - 1 {
        assert(entries.remove(i) =~= entries.drop_last());
        lemma_map_of_absent(entries.drop_last(), k);
        assert(map_of(entries.drop_last()) =~= map_of(entries).remove(k));
    } else {
        let shorter = entries.drop_last();
        lemma_map_of_remove(shorter, i);
        assert(entries.remove(i).drop_last() =~= shorter.remove(i));
        assert(entries.remove(i).last() == entries.last());
        assert(map_of(entries.remove(i)) == map_of(shorter.remove(i)).insert(
            entries.last().0@,
            entries.last().1@,
        ));
        assert(entries.last().0@ != k);
        assert(map_of(shorter).remove(k).insert(entries.last().0@, entries.last().1@)
            =~= map_of(entries).remove(k));
    }
}

/// Whether two byte vectors hold the same bytes.
#[verifier::loop_isolation(false)]
pub fn bytes_eq(a: &Vec<u8>, b: &Vec<u8>) -> (r: bool)
    ensures
        r == (a@ == b@),
{
    if a.len() != b.len() {
        proof {
            assert(a@ != b@);
        }
        return false;
    }
    let mut i: usize = 0;
    while i < a.len()
        invariant
            i <= a@.len(),
            forall|j: int| 0 <= j < i ==> a@[j] == b@[j],
        decreases a@.len() - i,
    {
        if a[i] != b[i] {
            return false;
        }
        i = i + 1;
    }
    proof {
        assert(a@ =~= b@);
    }
    true
}

impl Store {
    /// The store's invariant: each key is listed at most once.
    pub open spec fn wf(self) -> bool {
        keys_unique(self.entries@)
    }

    /// An empty keyspace.
    pub fn new() -> (r: Store)
        ensures
            r@ == Map::<Seq<u8>, EntryModel>::empty(),
            r.wf(),
    {
        Store { entries: Vec::new() }
    }

    /// Looks a key up, without regard to expiry.
    #[verifier::loop_isolation(false)]
    pub fn get(&self, key: &Vec<u8>) -> (r: Option<&DBValue>)
        requires
            self.wf(),
        ensures
            match r {
                Some(v) => self@.contains_key(key@) && v@ == self@[key@],
                None => !self@.contains_key(key@),
            },
    {
        let mut i: usize = 0;
        while i < self.entries.len()
            invariant
                i <= self.entries@.len(),
                forall|j: int| 0 <= j < i ==> (#[trigger] self.entries@[j]).0@ != key@,
            decreases self.entries@.len() - i,
        {
            if bytes_eq(&self.entries[i].0, key) {
                proof {
                    lemma_map_of_index(self.entries@, i as int);
                }
                return Some(&self.entries[i].1);
            }
            i = i + 1;
        }
        proof {
            lemma_map_of_absent(self.entries@, key@);
        }
        None
    }

    /// Writes an entry under a key, returning the entry previously there,
    /// expired or not.
    #[verifier::loop_isolation(false)]
    pub fn insert(&mut self, key: Vec<u8>, value: DBValue) -> (r: Option<DBValue>)
        requires
            old(self).wf(),
        ensures
            final(self).wf(),
            final(self)@ == old(self)@.insert(key@, value@),
            match r {
                Some(prev) => old(self)@.contains_key(key@) && prev@ == old(self)@[key@],
                None => !old(self)@.contains_key(key@),
            },
    {
        let ghost entries0 = self.entries@;
        let mut i: usize = 0;
        let mut found: Option<usize> = None;
        while i < self.entries.len()
            invariant
                i <= self.entries@.len(),
                self.entries@ == entries0,
                match found {
                    Some(fi) => fi < i && entries0[fi as int].0@ == key@,
                    None => forall|j: int| 0 <= j < i ==> (#[trigger] entries0[j]).0@ != key@,
                },
            decreases self.entries@.len() - i,
        {
            if found.is_none() {
                if bytes_eq(&self.entries[i].0, &key) {
                    found = Some(i);
                }
            }
            i = i + 1;
        }
        let prev = match found {
            Some(fi) => {
                proof {
                    lemma_map_of_index(entries0, fi as int);
                    lemma_map_of_remove(entries0, fi as int);
                }
                let removed = self.entries.remove(fi);
                Some(removed.1)
            },
            None => {
                proof {
                    lemma_map_of_absent(entries0, key@);
                }
                None
            },
        };
        let ghost before_push = self.entries@;
        self.entries.push((key, value));
        proof {
            assert(self.entries@.drop_last() =~= before_push);
            match found {
                Some(fi) => {
                    assert(map_of(self.entries@) =~= old(self)@.insert(
                        self.entries@.last().0@,
                        self.entries@.last().1@,
                    ));
                    assert forall|a: int, b: int|
                        0 <= a < b < self.entries@.len() implies (#[trigger] self.entries@[
                        a]).0@ != (#[trigger] self.entries@[b]).0@ by {
                        if b < self.entries@.len() - 1 {
                            let fii = fi as int;
                            if a < fii && b < fii {
                            } else if a < fii {
                                assert(self.entries@[b] == entries0[b + 1]);
                            } else {
                                assert(self.entries@[a] == entries0[a + 1]);
                                assert(self.entries@[b] == entries0[b + 1]);
                            }
                        } else {
                            if a < fi {
                                assert(self.entries@[a] == entries0[a]);
                            } else {
                                assert(self.entries@[a] == entries0[a + 1]);
                            }
                        }
                    }
                },
                None => {
                    assert(map_of(self.entries@) =~= old(self)@.insert(
                        self.entries@.last().0@,
                        self.entries@.last().1@,
                    ));
                },
            }
        }
        prev
    }
}

} // verus!
