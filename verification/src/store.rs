//! The key-value store: entries that may expire, kept under distinct keys.
//!
//! Time is a count of nanoseconds on the server's monotonic clock; an entry
//! with a deadline is expired once the clock has passed it.
use vstd::hash_map::StringHashMap;
use vstd::prelude::*;

verus! {

pub struct Entry {
    pub value: String,
    /// The clock reading after which the entry is expired, if it expires.
    pub expires_at: Option<u128>,
}

/// An entry as a mathematical value.
pub struct EntryModel {
    pub value: Seq<char>,
    pub expires_at: Option<nat>,
}

impl View for Entry {
    type V = EntryModel;

    open spec fn view(&self) -> EntryModel {
        EntryModel {
            value: self.value@,
            expires_at: match self.expires_at {
                Some(t) => Some(t as nat),
                None => None,
            },
        }
    }
}

/// Whether an entry is expired at clock reading `now`.
pub open spec fn expired(e: EntryModel, now: int) -> bool {
    match e.expires_at {
        Some(t) => now > t,
        None => false,
    }
}

/// The entries that are not expired at `now`: what the store holds for its clients.
pub open spec fn live(m: Map<Seq<char>, EntryModel>, now: int) -> Map<Seq<char>, EntryModel> {
    m.restrict(m.dom().filter(|k: Seq<char>| !expired(m[k], now)))
}

impl Entry {
    /// Whether the entry is expired at clock reading `now`.
    pub fn is_expired(&self, now: u64) -> (r: bool)
        ensures
            r == expired(self@, now as int),
    {
        match self.expires_at {
            None => false,
            Some(t) => (now as u128) > t,
        }
    }
}

/// The store: the entry under each key, in a hash map from keys to entries,
/// beside a list in which every key of the map occurs, to walk the map by.
pub struct Db {
    map: StringHashMap<Entry>,
    /// Every key of `map`, perhaps some more than once, and perhaps keys that
    /// have since been removed; purging drops those.
    keys: Vec<String>,
}

/// Whether `k` is one of the first `n` keys of `keys`.
pub open spec fn listed(keys: Seq<String>, n: int, k: Seq<char>) -> bool {
    exists|j: int| 0 <= j < n && #[trigger] keys[j]@ == k
}

impl Db {
    /// Every key held is listed.
    #[verifier::type_invariant]
    spec fn keys_listed(self) -> bool {
        forall|k: Seq<char>| #[trigger] self.map@.contains_key(k) ==> listed(self.keys@, self.keys@.len() as int, k)
    }

    /// The entry under each key.
    pub closed spec fn contents(&self) -> Map<Seq<char>, EntryModel> {
        self.map@.map_values(|e: Entry| e@)
    }

    /// Takes the map and the key list out, leaving an empty store behind.
    fn take_parts(&mut self) -> (parts: (StringHashMap<Entry>, Vec<String>))
        ensures
            parts.0@ == old(self).map@,
            parts.1@ == old(self).keys@,
            forall|k: Seq<char>| #[trigger] parts.0@.contains_key(k) ==> listed(parts.1@, parts.1@.len() as int, k),
    {
        proof {
            use_type_invariant(&*self);
        }
        let mut other = Db { map: StringHashMap::new(), keys: Vec::new() };
        std::mem::swap(self, &mut other);
        proof {
            use_type_invariant(&other);
        }
        let Db { map, keys } = other;
        (map, keys)
    }
}

impl View for Db {
    type V = Map<Seq<char>, EntryModel>;

    open spec fn view(&self) -> Map<Seq<char>, EntryModel> {
        self.contents()
    }
}

impl Db {
    /// An empty store.
    pub fn new() -> (db: Db)
        ensures
            db@ == Map::<Seq<char>, EntryModel>::empty(),
    {
        let db = Db { map: StringHashMap::new(), keys: Vec::new() };
        assert(db@ =~= Map::<Seq<char>, EntryModel>::empty());
        db
    }

    /// The number of keys held, expired or not.
    pub fn len(&self) -> (n: usize)
        ensures
            n == self@.len(),
    {
        assert(self@.dom() =~= self.map@.dom());
        self.map.len()
    }

    /// The entry under `key`, expired or not.
    pub fn get(&self, key: &String) -> (r: Option<&Entry>)
        ensures
            match r {
                Some(e) => self@.contains_key(key@) && self@[key@] == e@,
                None => !self@.contains_key(key@),
            },
    {
        self.map.get(key.as_str())
    }

    /// Puts `entry` under `key`, replacing what was there.
    pub fn insert(&mut self, key: String, entry: Entry)
        ensures
            final(self)@ == old(self)@.insert(key@, entry@),
    {
        let (mut map, mut keys) = self.take_parts();
        let ghost m0 = map@;
        let ghost ks0 = keys@;
        if !map.contains_key(key.as_str()) {
            keys.push(key.clone());
            proof {
                assert forall|k: Seq<char>| listed(ks0, ks0.len() as int, k) implies listed(keys@, keys@.len() as int, k) by {
                    let j = choose|j: int| 0 <= j < ks0.len() && #[trigger] ks0[j]@ == k;
                    assert(keys@[j] == ks0[j]);
                }
                assert(keys@[keys@.len() - 1]@ == key@);
            }
        }
        let ghost kv = key@;
        map.insert(key, entry);
        *self = Db { map, keys };
        assert(self@ =~= old(self)@.insert(kv, entry@));
    }

    /// Removes the entry under `key`, if there is one.
    pub fn remove(&mut self, key: &String)
        ensures
            final(self)@ == old(self)@.remove(key@),
    {
        let (mut map, keys) = self.take_parts();
        map.remove(key.as_str());
        *self = Db { map, keys };
        assert(self@ =~= old(self)@.remove(key@));
    }
}


/// An entry as it is saved: key, value and the time it has left, if it expires.
pub type SavedModel = (Seq<char>, Seq<char>, Option<nat>);

/// The saved form of saved entries.
pub open spec fn saved_model(v: Seq<(String, String, Option<u128>)>) -> Seq<SavedModel> {
    v.map_values(
        |s: (String, String, Option<u128>)|
            (
                s.0@,
                s.1@,
                match s.2 {
                    Some(t) => Some(t as nat),
                    None => None,
                },
            ),
    )
}

/// The time an entry has left at `now`, if it expires.
pub open spec fn time_left(e: EntryModel, now: int) -> Option<nat> {
    match e.expires_at {
        Some(t) => Some((t - now) as nat),
        None => None,
    }
}

/// `saved` lists each entry that is live at `now` exactly once, with its value
/// and the time it has left.
pub open spec fn is_snapshot(saved: Seq<SavedModel>, m: Map<Seq<char>, EntryModel>, now: int) -> bool {
    &&& forall|i: int| 0 <= i < saved.len() ==> {
        let k = #[trigger] saved[i].0;
        &&& live(m, now).contains_key(k)
        &&& saved[i].1 == m[k].value
        &&& saved[i].2 == time_left(m[k], now)
    }
    &&& forall|k: Seq<char>| #[trigger] live(m, now).contains_key(k) ==> exists|i: int| 0 <= i < saved.len() && saved[i].0 == k
    &&& forall|i: int, j: int| 0 <= i < saved.len() && 0 <= j < saved.len() && i != j ==> #[trigger] saved[i].0 != #[trigger] saved[j].0
}

/// A clock reading, or the last one a deadline can hold, `u128::MAX`, if it is later.
pub open spec fn capped(t: int) -> nat {
    if t > u128::MAX {
        u128::MAX as nat
    } else {
        t as nat
    }
}

/// The store that saved entries make when loaded at `now`, each deadline put
/// `now` plus the time left (capped); of two entries under one key, the later one
/// stays.
pub open spec fn restored(saved: Seq<SavedModel>, now: int) -> Map<Seq<char>, EntryModel>
    decreases saved.len(),
{
    if saved.len() == 0 {
        Map::empty()
    } else {
        let s = saved.last();
        restored(saved.drop_last(), now).insert(s.0, EntryModel {
            value: s.1,
            expires_at: match s.2 {
                Some(t) => Some(capped(now + t)),
                None => None,
            },
        })
    }
}

/// The entries of `m` with each deadline moved from clock reading `t1` to `t2`,
/// keeping the time each has left (capped).
pub open spec fn shifted(m: Map<Seq<char>, EntryModel>, t1: int, t2: int) -> Map<Seq<char>, EntryModel> {
    m.map_values(
        |e: EntryModel|
            EntryModel {
                value: e.value,
                expires_at: match e.expires_at {
                    Some(d) => Some(capped(t2 + (d - t1))),
                    None => None,
                },
            },
    )
}

proof fn lemma_restored_prefix(saved: Seq<SavedModel>, m: Map<Seq<char>, EntryModel>, t1: int, t2: int, i: int)
    requires
        is_snapshot(saved, m, t1),
        0 <= i <= saved.len(),
    ensures
        restored(saved.take(i), t2) == shifted(live(m, t1), t1, t2).restrict(
            Set::new(|k: Seq<char>| exists|j: int| 0 <= j < i && saved[j].0 == k),
        ),
    decreases i,
{
    let target = shifted(live(m, t1), t1, t2);
    if i == 0 {
        assert(saved.take(0) =~= Seq::<SavedModel>::empty());
        assert(target.restrict(Set::new(|k: Seq<char>| exists|j: int| 0 <= j < 0 && saved[j].0 == k)) =~= Map::empty());
    } else {
        lemma_restored_prefix(saved, m, t1, t2, i - 1);
        assert(saved.take(i).drop_last() =~= saved.take(i - 1));
        let s = saved[i - 1];
        let k = s.0;
        assert(saved.take(i).last() == s);
        assert(live(m, t1).contains_key(k));
        assert(saved[i - 1].0 == k);
        let prev = Set::new(|x: Seq<char>| exists|j: int| 0 <= j < i - 1 && saved[j].0 == x);
        let next = Set::new(|x: Seq<char>| exists|j: int| 0 <= j < i && saved[j].0 == x);
        assert(next =~= prev.insert(k)) by {
            assert forall|x: Seq<char>| next.contains(x) implies prev.insert(k).contains(x) by {
                let j = choose|j: int| 0 <= j < i && saved[j].0 == x;
                if j < i - 1 {
                    assert(prev.contains(x));
                }
            }
            assert forall|x: Seq<char>| prev.insert(k).contains(x) implies next.contains(x) by {
                if x != k {
                    let j = choose|j: int| 0 <= j < i - 1 && saved[j].0 == x;
                    assert(0 <= j < i && saved[j].0 == x);
                } else {
                    assert(saved[i - 1].0 == x);
                }
            }
        }
        assert(live(m, t1)[k] == m[k]);
        assert(restored(saved.take(i), t2) =~= target.restrict(next));
    }
}

/// Saving and loading keeps what clients see: the store loaded at clock reading
/// `t2` from what was saved at `t1` holds exactly the entries that were live at
/// `t1`, with their
/// values, each with the same time left as when it was saved, so that none of
/// them is expired when loaded.
pub proof fn law_save_then_load(saved: Seq<SavedModel>, m: Map<Seq<char>, EntryModel>, t1: int, t2: int)
    requires
        is_snapshot(saved, m, t1),
        0 <= t2 <= u64::MAX,
    ensures
        restored(saved, t2) == shifted(live(m, t1), t1, t2),
        live(restored(saved, t2), t2) == restored(saved, t2),
{
    lemma_restored_prefix(saved, m, t1, t2, saved.len() as int);
    assert(saved.take(saved.len() as int) =~= saved);
    let all = Set::new(|k: Seq<char>| exists|j: int| 0 <= j < saved.len() && saved[j].0 == k);
    assert(all =~= live(m, t1).dom()) by {
        assert forall|k: Seq<char>| all.contains(k) implies live(m, t1).dom().contains(k) by {
            let j = choose|j: int| 0 <= j < saved.len() && saved[j].0 == k;
            assert(live(m, t1).contains_key(saved[j].0));
        }
        assert forall|k: Seq<char>| live(m, t1).dom().contains(k) implies all.contains(k) by {
            assert(live(m, t1).contains_key(k));
        }
    }
    let target = shifted(live(m, t1), t1, t2);
    assert(target.restrict(all) =~= target);
    assert forall|k: Seq<char>| #[trigger] target.contains_key(k) implies !expired(target[k], t2) by {
        assert(live(m, t1).contains_key(k));
        assert(!expired(m[k], t1));
    }
    assert(live(target, t2) =~= target);
}

impl Db {
    /// Drops every entry that is expired at `now`.
    pub fn purge_expired(&mut self, now: u64)
        ensures
            final(self)@ == live(old(self)@, now as int),
    {
        let (mut map, keys) = self.take_parts();
        let ghost m0 = map@;
        let mut kept: Vec<String> = Vec::new();
        let mut seen: StringHashMap<()> = StringHashMap::new();
        let mut i: usize = 0;
        while i < keys.len()
            invariant
                0 <= i <= keys@.len(),
                forall|k: Seq<char>| #[trigger] m0.contains_key(k) ==> listed(keys@, keys@.len() as int, k),
                forall|k: Seq<char>| #[trigger] seen@.contains_key(k) == listed(keys@, i as int, k),
                forall|k: Seq<char>| #[trigger] map@.contains_key(k) == (m0.contains_key(k)
                    && !(listed(keys@, i as int, k) && expired(m0[k]@, now as int))),
                forall|k: Seq<char>| #[trigger] map@.contains_key(k) ==> map@[k] == m0[k],
                forall|k: Seq<char>| map@.contains_key(k) && #[trigger] listed(keys@, i as int, k)
                    ==> listed(kept@, kept@.len() as int, k),
            decreases keys@.len() - i,
        {
            let ghost seen0 = seen@;
            let ghost map0 = map@;
            let ghost kept0 = kept@;
            let k = &keys[i];
            proof {
                assert forall|x: Seq<char>| #[trigger] listed(keys@, i + 1, x) == (listed(keys@, i as int, x) || x == k@) by {
                    if listed(keys@, i + 1, x) && x != k@ {
                        let j = choose|j: int| 0 <= j < i + 1 && #[trigger] keys@[j]@ == x;
                        assert(0 <= j < i);
                    }
                    if x == k@ {
                        assert(keys@[i as int]@ == x);
                    }
                }
            }
            if !seen.contains_key(k.as_str()) {
                seen.insert(k.clone(), ());
                let expired_now = match map.get(k.as_str()) {
                    Some(e) => e.is_expired(now),
                    None => false,
                };
                if expired_now {
                    map.remove(k.as_str());
                } else if map.contains_key(k.as_str()) {
                    kept.push(k.clone());
                }
                proof {
                    assert forall|x: Seq<char>| listed(kept0, kept0.len() as int, x) implies listed(kept@, kept@.len() as int, x) by {
                        let j = choose|j: int| 0 <= j < kept0.len() && #[trigger] kept0[j]@ == x;
                        assert(kept@[j] == kept0[j]);
                    }
                    if !expired_now && map@.contains_key(k@) {
                        assert(kept@[kept@.len() - 1]@ == k@);
                    }
                }
            }
            i = i + 1;
        }
        proof {
            assert forall|k: Seq<char>| #[trigger] map@.contains_key(k) implies listed(kept@, kept@.len() as int, k) by {
                assert(m0.contains_key(k));
            }
        }
        *self = Db { map, keys: kept };
        proof {
            assert forall|k: Seq<char>| #[trigger] self@.contains_key(k) == live(old(self)@, now as int).contains_key(k) by {
                if m0.contains_key(k) {
                    assert(listed(keys@, keys@.len() as int, k));
                }
            }
            assert(self@ =~= live(old(self)@, now as int));
        }
    }

    /// Each entry that is live at `now`, with its value and the time it has left,
    /// once each: what is saved of the store.
    pub fn snapshot(&self, now: u64) -> (saved: Vec<(String, String, Option<u128>)>)
        ensures
            is_snapshot(saved_model(saved@), self@, now as int),
    {
        proof {
            use_type_invariant(self);
        }
        let ghost m = self@;
        let mut saved: Vec<(String, String, Option<u128>)> = Vec::new();
        let mut seen: StringHashMap<()> = StringHashMap::new();
        let mut i: usize = 0;
        while i < self.keys.len()
            invariant
                0 <= i <= self.keys@.len(),
                m == self@,
                forall|k: Seq<char>| #[trigger] self.map@.contains_key(k) ==> listed(self.keys@, self.keys@.len() as int, k),
                forall|k: Seq<char>| #[trigger] seen@.contains_key(k) == listed(self.keys@, i as int, k),
                forall|j: int| 0 <= j < saved@.len() ==> {
                    let k = #[trigger] saved_model(saved@)[j].0;
                    &&& listed(self.keys@, i as int, k)
                    &&& live(m, now as int).contains_key(k)
                    &&& saved_model(saved@)[j].1 == m[k].value
                    &&& saved_model(saved@)[j].2 == time_left(m[k], now as int)
                },
                forall|a: int, b: int| 0 <= a < saved@.len() && 0 <= b < saved@.len() && a != b
                    ==> #[trigger] saved_model(saved@)[a].0 != #[trigger] saved_model(saved@)[b].0,
                forall|k: Seq<char>| #[trigger] live(m, now as int).contains_key(k) && listed(self.keys@, i as int, k)
                    ==> exists|j: int| 0 <= j < saved@.len() && saved_model(saved@)[j].0 == k,
            decreases self.keys@.len() - i,
        {
            let ghost before = saved@;
            let k = &self.keys[i];
            proof {
                assert forall|x: Seq<char>| #[trigger] listed(self.keys@, i + 1, x) == (listed(self.keys@, i as int, x) || x == k@) by {
                    if listed(self.keys@, i + 1, x) && x != k@ {
                        let j = choose|j: int| 0 <= j < i + 1 && #[trigger] self.keys@[j]@ == x;
                        assert(0 <= j < i);
                    }
                    if x == k@ {
                        assert(self.keys@[i as int]@ == x);
                    }
                }
            }
            if !seen.contains_key(k.as_str()) {
                seen.insert(k.clone(), ());
                match self.map.get(k.as_str()) {
                    Some(entry) => {
                        if !entry.is_expired(now) {
                            let left = match entry.expires_at {
                                Some(t) => Some(t - now as u128),
                                None => None,
                            };
                            saved.push((k.clone(), entry.value.clone(), left));
                            proof {
                                assert(saved_model(saved@) =~= saved_model(before).push(saved_model(saved@)[saved@.len() - 1]));
                                assert(live(m, now as int).contains_key(k@));
                            }
                        }
                    },
                    None => {},
                }
            }
            proof {
                let s = saved_model(saved@);
                assert forall|x: Seq<char>| #[trigger] live(m, now as int).contains_key(x) && listed(self.keys@, i + 1, x)
                    implies exists|j: int| 0 <= j < saved@.len() && s[j].0 == x by {
                    if listed(self.keys@, i as int, x) {
                        let j = choose|j: int| 0 <= j < before.len() && saved_model(before)[j].0 == x;
                        assert(s[j] == saved_model(before)[j]);
                    } else {
                        assert(s[s.len() - 1].0 == x);
                    }
                }
            }
            i = i + 1;
        }
        proof {
            let s = saved_model(saved@);
            assert forall|k: Seq<char>| #[trigger] live(m, now as int).contains_key(k) implies exists|j: int|
                0 <= j < s.len() && s[j].0 == k by {
                assert(self.map@.contains_key(k));
                assert(listed(self.keys@, self.keys@.len() as int, k));
            }
        }
        saved
    }

    /// The store that saved entries make when loaded at `now`: each deadline is
    /// `now` plus the time left, or the clock's last reading, `u128::MAX`, where
    /// that sum would not fit.
    pub fn restore(saved: Vec<(String, String, Option<u128>)>, now: u64) -> (db: Db)
        ensures
            db@ == restored(saved_model(saved@), now as int),
    {
        let ghost s = saved_model(saved@);
        let mut db = Db::new();
        let mut i: usize = 0;
        while i < saved.len()
            invariant
                0 <= i <= saved@.len(),
                s == saved_model(saved@),
                db@ == restored(s.take(i as int), now as int),
            decreases saved@.len() - i,
        {
            assert(s.take(i as int + 1).drop_last() =~= s.take(i as int));
            let expires_at = match saved[i].2 {
                Some(t) => Some((now as u128).saturating_add(t)),
                None => None,
            };
            db.insert(saved[i].0.clone(), Entry { value: saved[i].1.clone(), expires_at });
            i = i + 1;
        }
        assert(s.take(i as int) =~= s);
        db
    }
}

} // verus!
