//! The in-memory key-value store: string keys, string values, and optional
//! expiry times that are enforced lazily, when a key is touched.
//!
//! Time is a count of milliseconds on a monotonic clock that the caller reads
//! and hands in as `now`; an entry whose expiry time is at or before `now` is
//! treated as missing and is removed when it is touched.
use vstd::prelude::*;
use vstd::hash_map::StringHashMap;
use vstd::utf8::{decode_utf8, encode_utf8};
use crate::decimal::{format_i64, int_text, parse_i64, parse_i64_text};
use crate::text::{ascii_bytes, owned, string_from_ascii};

verus! {

broadcast use {vstd::hash_map::group_hash_map_axioms, vstd::set::group_set_axioms};

/// One stored value and the time at which it expires, if it does.
#[derive(Clone)]
pub struct Entry {
    pub value: String,
    /// Milliseconds on the store's clock; `None` for a value that never expires.
    pub expires_at: Option<u64>,
}

/// The mathematical value of an `Entry`.
pub struct EntryModel {
    pub value: Seq<char>,
    pub expires_at: Option<u64>,
}

impl View for Entry {
    type V = EntryModel;

    open spec fn view(&self) -> EntryModel {
        EntryModel { value: self.value@, expires_at: self.expires_at }
    }
}

/// The key-value store.
pub struct Store {
    entries: StringHashMap<Entry>,
}

/// The contents of a store: each key's characters mapped to its entry.
pub type StoreModel = Map<Seq<char>, EntryModel>;

impl View for Store {
    type V = StoreModel;

    closed spec fn view(&self) -> StoreModel {
        self.entries@.map_values(|e: Entry| e@)
    }
}

// ---------------------------------------------------------------------------
// The model of each operation
// ---------------------------------------------------------------------------
/// Whether the entry has expired at time `now`.
pub open spec fn expired(e: EntryModel, now: u64) -> bool {
    e.expires_at matches Some(t) && now >= t
}

/// Whether `k` holds a value that has not expired at time `now`.
pub open spec fn live(m: StoreModel, k: Seq<char>, now: u64) -> bool {
    m.contains_key(k) && !expired(m[k], now)
}

/// The store with `k` removed if its entry has expired at time `now`.
pub open spec fn purge(m: StoreModel, k: Seq<char>, now: u64) -> StoreModel {
    if m.contains_key(k) && expired(m[k], now) {
        m.remove(k)
    } else {
        m
    }
}

/// The store with every expired entry among `keys` removed.
pub open spec fn purge_all(m: StoreModel, keys: Set<Seq<char>>, now: u64) -> StoreModel {
    m.remove_keys(keys.filter(|k: Seq<char>| m.contains_key(k) && expired(m[k], now)))
}

/// How many of the positions of `keys` name a live key.
pub open spec fn count_live(m: StoreModel, keys: Seq<Seq<char>>, now: u64) -> nat
    decreases keys.len(),
{
    if keys.len() == 0 {
        0
    } else {
        count_live(m, keys.drop_last(), now) + if live(m, keys[keys.len() - 1], now) {
            1nat
        } else {
            0nat
        }
    }
}

/// The text of the error for a value that is not an integer.
pub open spec fn not_integer_text() -> Seq<char> {
    "value is not an integer or out of range"@
}

/// The text of the error for a counter that would leave the `i64` range.
pub open spec fn overflow_text() -> Seq<char> {
    "increment or decrement would overflow"@
}

/// The number that the live value of `k` holds (0 where there is none), or
/// `None` where the value is not the text of an `i64`.
pub open spec fn counter_value(m: StoreModel, k: Seq<char>, now: u64) -> Option<int> {
    let m1 = purge(m, k, now);
    if m1.contains_key(k) {
        match parse_i64_text(encode_utf8(m1[k].value)) {
            Some(v) => Some(v as int),
            None => None,
        }
    } else {
        Some(0)
    }
}

/// What adding `delta` to the counter at `k` returns.
pub open spec fn counter_result(m: StoreModel, k: Seq<char>, now: u64, delta: int) -> Result<
    i64,
    Seq<char>,
> {
    match counter_value(m, k, now) {
        None => Err(not_integer_text()),
        Some(c) => if i64::MIN <= c + delta <= i64::MAX {
            Ok((c + delta) as i64)
        } else {
            Err(overflow_text())
        },
    }
}

/// The store after adding `delta` to the counter at `k`: the new number as
/// its decimal text, with the key's expiry time kept.
pub open spec fn counter_store(m: StoreModel, k: Seq<char>, now: u64, delta: int) -> StoreModel {
    let m1 = purge(m, k, now);
    match counter_result(m, k, now, delta) {
        Ok(n) => m1.insert(
            k,
            EntryModel {
                value: decode_utf8(int_text(n as int)),
                expires_at: if m1.contains_key(k) {
                    m1[k].expires_at
                } else {
                    None
                },
            },
        ),
        Err(_) => m1,
    }
}

/// Whether a `Result<i64, String>` is the modelled outcome.
pub open spec fn counter_matches(r: Result<i64, String>, expected: Result<i64, Seq<char>>) -> bool {
    match r {
        Ok(n) => expected == Ok::<i64, Seq<char>>(n),
        Err(e) => expected == Err::<i64, Seq<char>>(e@),
    }
}

/// The expiry time `seconds` after `now`, or the end of the clock where that
/// lies beyond it.
pub open spec fn deadline(now: u64, seconds: u64) -> u64 {
    if now + seconds * 1000 <= u64::MAX {
        (now + seconds * 1000) as u64
    } else {
        u64::MAX
    }
}

/// The time to live of `k` in whole seconds (rounded down), `-1` for a live
/// key without expiry, `-2` for a missing or expired key.
pub open spec fn ttl_of(m: StoreModel, k: Seq<char>, now: u64) -> int {
    if !live(m, k, now) {
        -2
    } else {
        match m[k].expires_at {
            None => -1,
            Some(t) => (t - now) / 1000,
        }
    }
}

/// The set of the first `i + 1` keys is that of the first `i` and key `i`.
proof fn lemma_prefix_set_step(ks: Seq<Seq<char>>, i: int)
    requires
        0 <= i < ks.len(),
    ensures
        ks.take(i + 1).to_set() == ks.take(i).to_set().insert(ks[i]),
{
    let t = ks.take(i + 1);
    assert(t.drop_last() =~= ks.take(i));
    assert(t.last() == ks[i]);
    assert forall|x: Seq<char>| t.to_set().contains(x) <==> ks.take(i).to_set().insert(ks[i]).contains(x) by {
        if t.to_set().contains(x) {
            let j = choose|j: int| 0 <= j < t.len() && #[trigger] t[j] == x;
            if j < i {
                assert(ks.take(i)[j] == x);
            }
        }
        if ks.take(i).to_set().contains(x) {
            let j = choose|j: int| 0 <= j < i && #[trigger] ks.take(i)[j] == x;
            assert(t[j] == x);
        }
        if x == ks[i] {
            assert(t[i] == x);
        }
    }
    assert(t.to_set() =~= ks.take(i).to_set().insert(ks[i]));
}

// ---------------------------------------------------------------------------
// The store
// ---------------------------------------------------------------------------
impl Store {
    /// An empty store.
    pub fn new() -> (store: Store)
        ensures
            store@ == Map::<Seq<char>, EntryModel>::empty(),
    {
        let store = Store { entries: StringHashMap::new() };
        assert(store@ =~= Map::<Seq<char>, EntryModel>::empty());
        store
    }

    /// The entry of `key`, expired or not.
    fn entry_of(&self, key: &str) -> (result: Option<&Entry>)
        ensures
            match result {
                Some(e) => self@.contains_key(key@) && e@ == self@[key@],
                None => !self@.contains_key(key@),
            },
    {
        self.entries.get(key)
    }

    /// Removes the entry of `key`.
    fn remove_entry(&mut self, key: &str)
        ensures
            final(self)@ == old(self)@.remove(key@),
    {
        self.entries.remove(key);
        assert(final(self)@ =~= old(self)@.remove(key@));
    }

    /// Stores `entry` under `key`.
    fn insert_entry(&mut self, key: String, entry: Entry)
        ensures
            final(self)@ == old(self)@.insert(key@, entry@),
    {
        let ghost e = entry@;
        self.entries.insert(key, entry);
        assert(final(self)@ =~= old(self)@.insert(key@, e));
    }

    /// Stores `value` under `key`, without expiry, replacing what was there.
    pub fn set(&mut self, key: String, value: String)
        ensures
            final(self)@ == old(self)@.insert(key@, EntryModel { value: value@, expires_at: None }),
    {
        let entry = Entry { value, expires_at: None };
        self.insert_entry(key, entry);
    }

    /// Whether the entry has expired at time `now`.
    fn is_expired(entry: &Entry, now: u64) -> (result: bool)
        ensures
            result == expired(entry@, now),
    {
        match entry.expires_at {
            Some(expires_at) => now >= expires_at,
            None => false,
        }
    }

    /// Removes `key` if its entry has expired at time `now`.
    fn purge_expired(&mut self, key: &str, now: u64)
        ensures
            final(self)@ == purge(old(self)@, key@, now),
    {
        let is_expired = match self.entry_of(key) {
            Some(entry) => Self::is_expired(entry, now),
            None => false,
        };
        if is_expired {
            self.remove_entry(key);
        }
    }

    /// The value of `key`, unless it is missing or has expired at time `now`;
    /// an expired entry is removed.
    pub fn get(&mut self, key: &str, now: u64) -> (result: Option<String>)
        ensures
            final(self)@ == purge(old(self)@, key@, now),
            match result {
                Some(v) => live(old(self)@, key@, now) && v@ == old(self)@[key@].value,
                None => !live(old(self)@, key@, now),
            },
    {
        self.purge_expired(key, now);
        match self.entry_of(key) {
            Some(entry) => Some(entry.value.clone()),
            None => None,
        }
    }

    /// Removes `key`; `true` when it was live at time `now` (an entry whose
    /// timeout has passed counts as missing, and is removed too).
    pub fn del(&mut self, key: &str, now: u64) -> (removed: bool)
        ensures
            final(self)@ == old(self)@.remove(key@),
            removed == live(old(self)@, key@, now),
    {
        let present = match self.entry_of(key) {
            Some(entry) => !Self::is_expired(entry, now),
            None => false,
        };
        self.remove_entry(key);
        present
    }

    /// Removes every key of `keys`; returns how many distinct keys among them
    /// were live at time `now` (entries whose timeout has passed count as
    /// missing, and are removed too).
    pub fn del_many(&mut self, keys: &[String], now: u64) -> (removed: i64)
        requires
            keys@.len() <= i64::MAX,
        ensures
            final(self)@ == old(self)@.remove_keys(keys@.map_values(|k: String| k@).to_set()),
            removed == keys@.map_values(|k: String| k@).to_set().filter(
                |k: Seq<char>| live(old(self)@, k, now),
            ).len(),
    {
        let ghost m = old(self)@;
        let ghost ks = keys@.map_values(|k: String| k@);
        let ghost lv = Set::new(|k: Seq<char>| live(m, k, now));
        let mut removed: i64 = 0;
        let mut i: usize = 0;
        proof {
            assert(ks.take(0).to_set() =~= Set::<Seq<char>>::empty());
            assert(m.remove_keys(Set::<Seq<char>>::empty()) =~= m);
            assert(Set::<Seq<char>>::empty().intersect(lv) =~= Set::<Seq<char>>::empty());
        }
        while i < keys.len()
            invariant
                i <= keys@.len() <= i64::MAX,
                m == old(self)@,
                ks == keys@.map_values(|k: String| k@),
                lv == Set::new(|k: Seq<char>| live(m, k, now)),
                self@ == m.remove_keys(ks.take(i as int).to_set()),
                removed == ks.take(i as int).to_set().intersect(lv).len(),
                removed <= i,
            decreases keys@.len() - i,
        {
            let key = keys[i].as_str();
            let ghost before = ks.take(i as int).to_set();
            let ghost after = ks.take(i + 1).to_set();
            assert(key@ == ks[i as int]);
            proof {
                lemma_prefix_set_step(ks, i as int);
            }
            proof {
                vstd::seq_lib::seq_to_set_is_finite(ks.take(i as int));
                vstd::set_lib::lemma_len_intersect(before, lv);
                let b = before.intersect(lv);
                if lv.contains(key@) && !before.contains(key@) {
                    assert(after.intersect(lv) =~= b.insert(key@));
                } else {
                    assert(after.intersect(lv) =~= b);
                }
            }
            let ghost prev = self@;
            let present = match self.entry_of(key) {
                Some(entry) => !Self::is_expired(entry, now),
                None => false,
            };
            self.remove_entry(key);
            if present {
                removed = removed + 1;
            }
            assert(prev.remove(key@) =~= m.remove_keys(after));
            i = i + 1;
        }
        assert(ks.take(keys@.len() as int) =~= ks);
        assert(ks.to_set().filter(|k: Seq<char>| live(m, k, now)) =~= ks.to_set().intersect(lv));
        removed
    }

    /// Counts the positions of `keys` whose key is live at time `now` (a key
    /// named twice counts twice); expired entries among `keys` are removed.
    pub fn exists_many(&mut self, keys: &[String], now: u64) -> (count: i64)
        requires
            keys@.len() <= i64::MAX,
        ensures
            final(self)@ == purge_all(old(self)@, keys@.map_values(|k: String| k@).to_set(), now),
            count == count_live(old(self)@, keys@.map_values(|k: String| k@), now),
    {
        let ghost m = old(self)@;
        let ghost ks = keys@.map_values(|k: String| k@);
        let mut count: i64 = 0;
        let mut i: usize = 0;
        proof {
            assert(ks.take(0).to_set() =~= Set::<Seq<char>>::empty());
            assert(purge_all(m, Set::<Seq<char>>::empty(), now) =~= m);
        }
        while i < keys.len()
            invariant
                i <= keys@.len() <= i64::MAX,
                m == old(self)@,
                ks == keys@.map_values(|k: String| k@),
                self@ == purge_all(m, ks.take(i as int).to_set(), now),
                count == count_live(m, ks.take(i as int), now),
                count <= i,
            decreases keys@.len() - i,
        {
            let key = keys[i].as_str();
            let ghost before = ks.take(i as int).to_set();
            let ghost after = ks.take(i + 1).to_set();
            assert(key@ == ks[i as int]);
            assert(ks.take(i + 1).drop_last() =~= ks.take(i as int));
            proof {
                lemma_prefix_set_step(ks, i as int);
            }
            let ghost prev = self@;
            let status: u8 = match self.entry_of(key) {
                Some(entry) => if Self::is_expired(entry, now) {
                    2
                } else {
                    1
                },
                None => 0,
            };
            if status == 2 {
                self.remove_entry(key);
                assert(prev.remove(key@) =~= purge_all(m, after, now));
            } else {
                if status == 1 {
                    count = count + 1;
                }
                assert(prev =~= purge_all(m, after, now));
            }
            i = i + 1;
        }
        assert(ks.take(keys@.len() as int) =~= ks);
        count
    }

    /// Whether `key` is live at time `now`; an expired entry is removed.
    pub fn key_exists(&mut self, key: &str, now: u64) -> (found: bool)
        ensures
            final(self)@ == purge(old(self)@, key@, now),
            found == live(old(self)@, key@, now),
    {
        self.purge_expired(key, now);
        self.entry_of(key).is_some()
    }

    /// Adds `delta` to the number stored at `key`, a missing key counting as 0.
    fn add_to_counter(&mut self, key: &str, delta: i64, now: u64) -> (result: Result<i64, String>)
        requires
            delta == 1 || delta == -1,
        ensures
            final(self)@ == counter_store(old(self)@, key@, now, delta as int),
            counter_matches(result, counter_result(old(self)@, key@, now, delta as int)),
    {
        self.purge_expired(key, now);
        let current: i64 = match self.entry_of(key) {
            Some(entry) => {
                let text = entry.value.as_str().as_bytes();
                match parse_i64(text, 0, text.len()) {
                    Some(v) => {
                        assert(text@.subrange(0, text@.len() as int) =~= text@);
                        v
                    },
                    None => {
                        assert(text@.subrange(0, text@.len() as int) =~= text@);
                        return Err(owned("value is not an integer or out of range"));
                    },
                }
            },
            None => 0,
        };
        let next: i64 = match current.checked_add(delta) {
            Some(n) => n,
            None => {
                return Err(owned("increment or decrement would overflow"));
            },
        };
        let expires_at = match self.entry_of(key) {
            Some(entry) => entry.expires_at,
            None => None,
        };
        let digits = format_i64(next);
        proof {
            crate::decimal::lemma_int_text_ascii(next as int);
        }
        let value = string_from_ascii(digits);
        self.insert_entry(owned(key), Entry { value, expires_at });
        assert(final(self)@ =~= counter_store(old(self)@, key@, now, delta as int));
        Ok(next)
    }

    /// Adds one to the number stored at `key`; a missing or expired key
    /// counts as 0. The key keeps its expiry time.
    pub fn incr(&mut self, key: &str, now: u64) -> (result: Result<i64, String>)
        ensures
            final(self)@ == counter_store(old(self)@, key@, now, 1),
            counter_matches(result, counter_result(old(self)@, key@, now, 1)),
    {
        self.add_to_counter(key, 1, now)
    }

    /// Subtracts one from the number stored at `key`; a missing or expired
    /// key counts as 0. The key keeps its expiry time.
    pub fn decr(&mut self, key: &str, now: u64) -> (result: Result<i64, String>)
        ensures
            final(self)@ == counter_store(old(self)@, key@, now, -1),
            counter_matches(result, counter_result(old(self)@, key@, now, -1)),
    {
        self.add_to_counter(key, -1, now)
    }

    /// Makes a live `key` expire `seconds` after `now`; `false` where the key
    /// is missing or has expired (an expired entry is removed).
    pub fn expire(&mut self, key: &str, seconds: u64, now: u64) -> (set: bool)
        ensures
            set == live(old(self)@, key@, now),
            final(self)@ == if set {
                old(self)@.insert(
                    key@,
                    EntryModel {
                        value: old(self)@[key@].value,
                        expires_at: Some(deadline(now, seconds)),
                    },
                )
            } else {
                purge(old(self)@, key@, now)
            },
    {
        self.purge_expired(key, now);
        let at: u64 = match seconds.checked_mul(1000) {
            Some(ms) => match now.checked_add(ms) {
                Some(t) => t,
                None => u64::MAX,
            },
            None => u64::MAX,
        };
        let value = match self.entry_of(key) {
            Some(entry) => entry.value.clone(),
            None => {
                return false;
            },
        };
        self.insert_entry(owned(key), Entry { value, expires_at: Some(at) });
        assert(final(self)@ =~= old(self)@.insert(
            key@,
            EntryModel { value: old(self)@[key@].value, expires_at: Some(deadline(now, seconds)) },
        ));
        true
    }

    /// The time to live of `key` at time `now` in whole seconds, `-1` where it
    /// does not expire, `-2` where it is missing or has expired (an expired
    /// entry is removed).
    pub fn ttl(&mut self, key: &str, now: u64) -> (seconds: i64)
        ensures
            final(self)@ == purge(old(self)@, key@, now),
            seconds == ttl_of(old(self)@, key@, now),
    {
        self.purge_expired(key, now);
        match self.entry_of(key) {
            None => -2,
            Some(entry) => match entry.expires_at {
                None => -1,
                Some(t) => ((t - now) / 1000) as i64,
            },
        }
    }
}

// ---------------------------------------------------------------------------
// Laws
// ---------------------------------------------------------------------------
/// Law: a value that was set is read back, at any time, with no expiry.
pub proof fn law_get_after_set(m: StoreModel, k: Seq<char>, v: Seq<char>, now: u64)
    ensures
        ({
            let m1 = m.insert(k, EntryModel { value: v, expires_at: None });
            &&& live(m1, k, now)
            &&& m1[k].value == v
            &&& purge(m1, k, now) == m1
            &&& ttl_of(m1, k, now) == -1
        }),
{
}

/// Law: setting one key changes nothing that another key reads.
pub proof fn law_set_leaves_other_keys(
    m: StoreModel,
    k: Seq<char>,
    v: Seq<char>,
    other: Seq<char>,
    now: u64,
)
    requires
        other != k,
    ensures
        ({
            let m1 = m.insert(k, EntryModel { value: v, expires_at: None });
            &&& live(m1, other, now) == live(m, other, now)
            &&& live(m, other, now) ==> m1[other] == m[other]
        }),
{
}

/// Law: a deleted key reads as missing, and deleting it again finds nothing.
pub proof fn law_get_after_del(m: StoreModel, k: Seq<char>, now: u64, later: u64)
    ensures
        !live(m.remove(k), k, later),
        !m.remove(k).contains_key(k),
        ttl_of(m.remove(k), k, later) == -2,
{
}

/// Law: a key whose timeout has passed counts as missing for DEL too: DEL
/// answers that nothing was removed, exactly as GET answers nothing.
pub proof fn law_del_expired_counts_as_missing(m: StoreModel, k: Seq<char>, now: u64)
    requires
        m.contains_key(k),
        expired(m[k], now),
    ensures
        !live(m, k, now),
        Set::<Seq<char>>::empty().insert(k).filter(|x: Seq<char>| live(m, x, now)).len() == 0,
{
    assert(Set::<Seq<char>>::empty().insert(k).filter(|x: Seq<char>| live(m, x, now))
        =~= Set::<Seq<char>>::empty());
}

/// Law: a missing or expired key counts as 0, so INCR gives 1 and DECR -1.
pub proof fn law_counter_starts_at_zero(m: StoreModel, k: Seq<char>, now: u64)
    requires
        !live(m, k, now),
    ensures
        counter_result(m, k, now, 1) == Ok::<i64, Seq<char>>(1),
        counter_result(m, k, now, -1) == Ok::<i64, Seq<char>>(-1i64),
{
}

/// After a counter step that succeeded, the key is live and holds the new
/// number's decimal text, which reads back as that number.
pub proof fn lemma_counter_stored(m: StoreModel, k: Seq<char>, now: u64, delta: int)
    requires
        counter_result(m, k, now, delta) is Ok,
    ensures
        ({
            let n = counter_result(m, k, now, delta)->Ok_0;
            let m1 = counter_store(m, k, now, delta);
            &&& live(m1, k, now)
            &&& m1[k].value == decode_utf8(int_text(n as int))
            &&& encode_utf8(m1[k].value) == int_text(n as int)
            &&& counter_value(m1, k, now) == Some(n as int)
        }),
{
    let n = counter_result(m, k, now, delta)->Ok_0;
    crate::decimal::lemma_int_text_ascii(n as int);
    crate::text::lemma_ascii_utf8(int_text(n as int));
    crate::decimal::lemma_i64_text_roundtrip(n);
}

/// Law: INCR after INCR adds two, and DECR after INCR gives back the number
/// that was there (a missing key counting as 0).
pub proof fn law_counter_steps_compose(m: StoreModel, k: Seq<char>, now: u64, d1: int, d2: int)
    requires
        counter_result(m, k, now, d1) is Ok,
        d1 == 1 || d1 == -1,
        d2 == 1 || d2 == -1,
    ensures
        ({
            let n = counter_result(m, k, now, d1)->Ok_0;
            let m1 = counter_store(m, k, now, d1);
            &&& counter_value(m, k, now) == Some(n - d1)
            &&& i64::MIN <= n + d2 <= i64::MAX ==> counter_result(m1, k, now, d2) == Ok::<
                i64,
                Seq<char>,
            >((n + d2) as i64)
        }),
{
    lemma_counter_stored(m, k, now, d1);
}

/// Law: a key that EXPIRE set a timeout on reads as it was until the
/// deadline, and as missing from the deadline on; TTL counts down the whole
/// seconds left.
pub proof fn law_expire_deadline(m: StoreModel, k: Seq<char>, seconds: u64, now: u64, later: u64)
    requires
        live(m, k, now),
    ensures
        ({
            let at = deadline(now, seconds);
            let m1 = m.insert(k, EntryModel { value: m[k].value, expires_at: Some(at) });
            &&& later < at ==> live(m1, k, later) && m1[k].value == m[k].value
            &&& later >= at ==> !live(m1, k, later)
            &&& 0 < seconds && now + seconds * 1000 <= u64::MAX ==> ttl_of(m1, k, now) == seconds
            &&& now <= later < at ==> ttl_of(m1, k, later) == (at - later) / 1000
        }),
{
    let at = deadline(now, seconds);
    if now + seconds * 1000 <= u64::MAX {
        assert(at - now == seconds * 1000);
        assert((seconds * 1000) / 1000 == seconds) by (nonlinear_arith);
        assert(0 < seconds ==> seconds * 1000 > 0) by (nonlinear_arith);
    }
}

/// Law: EXISTS counts at most one per key named.
pub proof fn law_count_live_bounded(m: StoreModel, keys: Seq<Seq<char>>, now: u64)
    ensures
        count_live(m, keys, now) <= keys.len(),
    decreases keys.len(),
{
    if keys.len() > 0 {
        law_count_live_bounded(m, keys.drop_last(), now);
    }
}

} // verus!
