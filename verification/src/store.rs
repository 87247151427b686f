//! The in-memory key-value store.
//!
//! Keys are kept in ascending order (the order of `str`), so listing them needs no sort.
//! An entry may carry an absolute expiry time; expired entries are removed lazily, when an
//! operation meets them.
use vstd::prelude::*;
use crate::text::{
    chars_of, compare, lemma_lex_asymmetric, lemma_lex_irreflexive, lemma_lex_total,
    lemma_lex_transitive, lex_lt, string_of, views, Cmp,
};

verus! {

/// One stored value.
#[derive(Debug, Clone, PartialEq, Eq)]
pub struct Entry {
    pub value: String,
    /// Absolute expiry time in UNIX milliseconds; `None` for never. An absolute time keeps
    /// its meaning across a restart.
    pub expire_at_ms: Option<u64>,
}

/// An [`Entry`] with its value taken as a character sequence.
pub struct EntryView {
    pub value: Seq<char>,
    pub expire_at_ms: Option<u64>,
}

impl View for Entry {
    type V = EntryView;

    open spec fn view(&self) -> EntryView {
        EntryView { value: self.value@, expire_at_ms: self.expire_at_ms }
    }
}

/// Whether an entry has expired at time `now`: its expiry time is at or before `now`.
pub open spec fn expired(e: EntryView, now: u64) -> bool {
    e.expire_at_ms matches Some(t) && t <= now
}

impl Entry {
    /// Whether this entry has expired at time `now`.
    pub fn is_expired(&self, now: u64) -> (b: bool)
        ensures
            b == expired(self@, now),
    {
        match self.expire_at_ms {
            Some(t) => t <= now,
            None => false,
        }
    }

    /// A copy of this entry.
    pub fn duplicate(&self) -> (r: Entry)
        ensures
            r@ == self@,
    {
        Entry { value: self.value.clone(), expire_at_ms: self.expire_at_ms }
    }
}

/// The abstract content of a store: each key with its entry.
pub type KvMap = Map<Seq<char>, EntryView>;

/// The entries of `m` that have not expired at `now`.
pub open spec fn purged(m: KvMap, now: u64) -> KvMap {
    Map::new(|k: Seq<char>| m.contains_key(k) && !expired(m[k], now), |k: Seq<char>| m[k])
}

/// What a read of `k` at `now` finds: the value of a live entry.
pub open spec fn lookup(m: KvMap, k: Seq<char>, now: u64) -> Option<Seq<char>> {
    if m.contains_key(k) && !expired(m[k], now) {
        Some(m[k].value)
    } else {
        None
    }
}

/// The content after a read of `k` at `now`: an expired entry met by the read is removed.
pub open spec fn after_read(m: KvMap, k: Seq<char>, now: u64) -> KvMap {
    if m.contains_key(k) && expired(m[k], now) {
        m.remove(k)
    } else {
        m
    }
}

/// Whether `ks` is in strictly ascending order.
pub open spec fn strictly_sorted(ks: Seq<Seq<char>>) -> bool {
    forall|i: int, j: int| 0 <= i < j < ks.len() ==> lex_lt(ks[i], ks[j])
}

/// Whether `ks` lists exactly the keys of `m`, in ascending order.
pub open spec fn lists_keys(ks: Seq<Seq<char>>, m: KvMap) -> bool {
    &&& strictly_sorted(ks)
    &&& forall|k: Seq<char>| m.contains_key(k) <==> ks.contains(k)
    &&& ks.len() == m.dom().len()
}

/// A key with its entry, as the store keeps it.
#[derive(Debug)]
struct Slot {
    key: Vec<char>,
    entry: Entry,
}

/// A sequence of keys with entries.
pub type Pairs = Seq<(Seq<char>, EntryView)>;

spec fn pairs_of(slots: Seq<Slot>) -> Pairs {
    slots.map_values(|s: Slot| (s.key@, s.entry@))
}

/// Whether the keys of `s` are in strictly ascending order.
pub open spec fn sorted_pairs(s: Pairs) -> bool {
    forall|i: int, j: int| 0 <= i < j < s.len() ==> lex_lt(s[i].0, s[j].0)
}

/// Whether `s` has an entry for `k`.
pub open spec fn has_key(s: Pairs, k: Seq<char>) -> bool {
    exists|i: int| 0 <= i < s.len() && s[i].0 == k
}

/// A position of `s` that holds key `k`, where there is one.
pub open spec fn position_of(s: Pairs, k: Seq<char>) -> int {
    choose|i: int| 0 <= i < s.len() && s[i].0 == k
}

/// The map of a sequence of distinct keys with entries.
pub open spec fn assoc(s: Pairs) -> KvMap {
    Map::new(|k: Seq<char>| has_key(s, k), |k: Seq<char>| s[position_of(s, k)].1)
}

pub proof fn lemma_sorted_distinct(s: Pairs, i: int, j: int)
    requires
        sorted_pairs(s),
        0 <= i < s.len(),
        0 <= j < s.len(),
        i != j,
    ensures
        s[i].0 != s[j].0,
{
    if i < j {
        lemma_lex_asymmetric(s[i].0, s[j].0);
    } else {
        lemma_lex_asymmetric(s[j].0, s[i].0);
    }
}

pub proof fn lemma_assoc_at(s: Pairs, i: int)
    requires
        sorted_pairs(s),
        0 <= i < s.len(),
    ensures
        assoc(s).contains_key(s[i].0),
        assoc(s)[s[i].0] == s[i].1,
{
    let k = s[i].0;
    assert(has_key(s, k));
    let j = position_of(s, k);
    if j != i {
        lemma_sorted_distinct(s, i, j);
    }
}

pub proof fn lemma_assoc_finite(s: Pairs)
    requires
        sorted_pairs(s),
    ensures
        assoc(s).dom().finite(),
        assoc(s).dom().len() == s.len(),
{
    let ks = s.map_values(|p: (Seq<char>, EntryView)| p.0);
    assert(assoc(s).dom() =~= ks.to_set()) by {
        assert forall|k: Seq<char>| assoc(s).dom().contains(k) implies ks.to_set().contains(k) by {
            let i = choose|i: int| 0 <= i < s.len() && s[i].0 == k;
            assert(ks[i] == k);
        }
        assert forall|k: Seq<char>| ks.to_set().contains(k) implies assoc(s).dom().contains(k) by {
            let i = choose|i: int| 0 <= i < ks.len() && ks[i] == k;
            assert(s[i].0 == k);
        }
    }
    assert(ks.no_duplicates()) by {
        assert forall|i: int, j: int| 0 <= i < ks.len() && 0 <= j < ks.len() && i != j implies ks[i]
            != ks[j] by {
            lemma_sorted_distinct(s, i, j);
        }
    }
    ks.unique_seq_to_set();
}

proof fn lemma_assoc_update(s: Pairs, p: int, e: EntryView)
    requires
        sorted_pairs(s),
        0 <= p < s.len(),
    ensures
        sorted_pairs(s.update(p, (s[p].0, e))),
        assoc(s.update(p, (s[p].0, e))) == assoc(s).insert(s[p].0, e),
{
    let t = s.update(p, (s[p].0, e));
    assert(sorted_pairs(t)) by {
        assert forall|i: int, j: int| 0 <= i < j < t.len() implies lex_lt(t[i].0, t[j].0) by {
            assert(t[i].0 == s[i].0 && t[j].0 == s[j].0);
        }
    }
    let m = assoc(s).insert(s[p].0, e);
    assert forall|k: Seq<char>| assoc(t).contains_key(k) <==> m.contains_key(k) by {
        if has_key(t, k) {
            let i = choose|i: int| 0 <= i < t.len() && t[i].0 == k;
            assert(s[i].0 == k);
        }
        if has_key(s, k) {
            let i = choose|i: int| 0 <= i < s.len() && s[i].0 == k;
            assert(t[i].0 == k);
        }
        if k == s[p].0 {
            assert(t[p].0 == k);
        }
    }
    assert forall|k: Seq<char>| #[trigger] assoc(t).contains_key(k) implies assoc(t)[k] == m[k] by {
        let i = choose|i: int| 0 <= i < t.len() && t[i].0 == k;
        lemma_assoc_at(t, i);
        if i == p {
        } else {
            assert(s[i] == t[i]);
            lemma_assoc_at(s, i);
            lemma_sorted_distinct(s, i, p);
        }
    }
    assert(assoc(t) =~= m);
}

pub proof fn lemma_assoc_insert(s: Pairs, p: int, k: Seq<char>, e: EntryView)
    requires
        sorted_pairs(s),
        sorted_pairs(s.insert(p, (k, e))),
        0 <= p <= s.len(),
        !has_key(s, k),
    ensures
        assoc(s.insert(p, (k, e))) == assoc(s).insert(k, e),
{
    let t = s.insert(p, (k, e));
    let m = assoc(s).insert(k, e);
    assert forall|x: Seq<char>| assoc(t).contains_key(x) <==> m.contains_key(x) by {
        if has_key(t, x) {
            let i = choose|i: int| 0 <= i < t.len() && t[i].0 == x;
            if i < p {
                assert(s[i].0 == x);
            } else if i > p {
                assert(s[i - 1].0 == x);
            }
        }
        if has_key(s, x) {
            let i = choose|i: int| 0 <= i < s.len() && s[i].0 == x;
            if i < p {
                assert(t[i].0 == x);
            } else {
                assert(t[i + 1].0 == x);
            }
        }
        if x == k {
            assert(t[p].0 == x);
        }
    }
    assert forall|x: Seq<char>| #[trigger] assoc(t).contains_key(x) implies assoc(t)[x] == m[x] by {
        let i = choose|i: int| 0 <= i < t.len() && t[i].0 == x;
        lemma_assoc_at(t, i);
        if i < p {
            assert(s[i] == t[i]);
            lemma_assoc_at(s, i);
        } else if i > p {
            assert(s[i - 1] == t[i]);
            lemma_assoc_at(s, i - 1);
        }
    }
    assert(assoc(t) =~= m);
}

proof fn lemma_assoc_remove(s: Pairs, p: int)
    requires
        sorted_pairs(s),
        0 <= p < s.len(),
    ensures
        sorted_pairs(s.remove(p)),
        assoc(s.remove(p)) == assoc(s).remove(s[p].0),
{
    let t = s.remove(p);
    assert(sorted_pairs(t)) by {
        assert forall|i: int, j: int| 0 <= i < j < t.len() implies lex_lt(t[i].0, t[j].0) by {
            let si = if i < p { i } else { i + 1 };
            let sj = if j < p { j } else { j + 1 };
            assert(t[i] == s[si] && t[j] == s[sj]);
        }
    }
    let m = assoc(s).remove(s[p].0);
    assert forall|x: Seq<char>| assoc(t).contains_key(x) <==> m.contains_key(x) by {
        if has_key(t, x) {
            let i = choose|i: int| 0 <= i < t.len() && t[i].0 == x;
            let si = if i < p { i } else { i + 1 };
            assert(s[si].0 == x);
            lemma_sorted_distinct(s, si, p);
        }
        if has_key(s, x) && x != s[p].0 {
            let i = choose|i: int| 0 <= i < s.len() && s[i].0 == x;
            if i < p {
                assert(t[i].0 == x);
            } else {
                assert(i != p);
                assert(t[i - 1].0 == x);
            }
        }
    }
    assert forall|x: Seq<char>| #[trigger] assoc(t).contains_key(x) implies assoc(t)[x] == m[x] by {
        let i = choose|i: int| 0 <= i < t.len() && t[i].0 == x;
        lemma_assoc_at(t, i);
        let si = if i < p { i } else { i + 1 };
        assert(s[si] == t[i]);
        lemma_assoc_at(s, si);
        lemma_sorted_distinct(s, si, p);
    }
    assert(assoc(t) =~= m);
}

/// An ordered key-value store with lazily removed expired entries.
#[derive(Debug)]
pub struct Store {
    slots: Vec<Slot>,
}

impl Store {
    #[verifier::type_invariant]
    spec fn keys_ascending(self) -> bool {
        sorted_pairs(pairs_of(self.slots@))
    }
}

impl View for Store {
    type V = KvMap;

    closed spec fn view(&self) -> KvMap {
        assoc(pairs_of(self.slots@))
    }
}

impl Default for Store {
    fn default() -> (s: Store)
        ensures
            s@ == Map::<Seq<char>, EntryView>::empty(),
    {
        Store::new()
    }
}

impl Store {
    /// An empty store.
    pub fn new() -> (s: Store)
        ensures
            s@ == Map::<Seq<char>, EntryView>::empty(),
    {
        let s = Store { slots: Vec::new() };
        assert(s@ =~= Map::<Seq<char>, EntryView>::empty());
        s
    }

    /// Where `key` is or would go: the number of keys before it, and whether it is there.
    fn locate(&self, key: &[char]) -> (r: (usize, bool))
        ensures
            r.0 <= self.slots@.len(),
            forall|i: int| 0 <= i < r.0 ==> lex_lt(#[trigger] pairs_of(self.slots@)[i].0, key@),
            r.0 < self.slots@.len() ==> !lex_lt(pairs_of(self.slots@)[r.0 as int].0, key@),
            r.1 == (r.0 < self.slots@.len() && pairs_of(self.slots@)[r.0 as int].0 == key@),
    {
        let mut i: usize = 0;
        while i < self.slots.len()
            invariant
                i <= self.slots@.len(),
                forall|j: int| 0 <= j < i ==> lex_lt(#[trigger] pairs_of(self.slots@)[j].0, key@),
            decreases self.slots.len() - i,
        {
            match compare(&self.slots[i].key, key) {
                Cmp::Less => {
                    i = i + 1;
                },
                Cmp::Equal => {
                    return (i, true);
                },
                Cmp::Greater => {
                    proof {
                        lemma_lex_asymmetric(key@, self.slots@[i as int].key@);
                    }
                    return (i, false);
                },
            }
        }
        (i, false)
    }
}

/// The position found by `locate` tells whether the key is present, and inserting there
/// keeps the keys ascending.
proof fn lemma_located(s: Pairs, key: Seq<char>, p: int, e: EntryView)
    requires
        sorted_pairs(s),
        0 <= p <= s.len(),
        forall|i: int| 0 <= i < p ==> lex_lt(#[trigger] s[i].0, key),
        p < s.len() ==> !lex_lt(s[p].0, key),
    ensures
        has_key(s, key) == (p < s.len() && s[p].0 == key),
        !has_key(s, key) ==> sorted_pairs(s.insert(p, (key, e))),
{
    if has_key(s, key) {
        let i = choose|i: int| 0 <= i < s.len() && s[i].0 == key;
        if i < p {
            lemma_lex_irreflexive(key);
        } else if i > p {
            lemma_lex_total(s[p].0, key);
            if s[p].0 != key {
                lemma_lex_transitive(key, s[p].0, s[i].0);
                lemma_lex_irreflexive(key);
            }
        }
    }
    if !has_key(s, key) {
        if p < s.len() {
            lemma_lex_total(s[p].0, key);
            assert(s[p].0 != key);
            assert(lex_lt(key, s[p].0));
        }
        let t = s.insert(p, (key, e));
        assert forall|i: int, j: int| 0 <= i < j < t.len() implies lex_lt(t[i].0, t[j].0) by {
            if j < p {
                assert(t[i] == s[i] && t[j] == s[j]);
            } else if j == p {
                assert(t[i] == s[i]);
            } else if i < p {
                assert(t[i] == s[i] && t[j] == s[j - 1]);
                lemma_lex_transitive(s[i].0, key, s[p].0);
                if j - 1 > p {
                    lemma_lex_transitive(s[i].0, s[p].0, s[j - 1].0);
                }
            } else if i == p {
                assert(t[j] == s[j - 1]);
                if j - 1 > p {
                    lemma_lex_transitive(key, s[p].0, s[j - 1].0);
                }
            } else {
                assert(t[i] == s[i - 1] && t[j] == s[j - 1]);
            }
        }
    }
}

/// The value of a borrowed text, if any.
pub open spec fn text_opt(r: Option<&str>) -> Option<Seq<char>> {
    match r {
        Some(t) => Some(t@),
        None => None,
    }
}

impl Store {
    /// Puts `slot` where `locate` found no slot with its key.
    fn put_new(&mut self, p: usize, slot: Slot)
        requires
            p <= old(self).slots@.len(),
            forall|i: int| 0 <= i < p ==> lex_lt(#[trigger] pairs_of(old(self).slots@)[i].0, slot.key@),
            p < old(self).slots@.len() ==> !lex_lt(pairs_of(old(self).slots@)[p as int].0, slot.key@),
            !(p < old(self).slots@.len() && pairs_of(old(self).slots@)[p as int].0 == slot.key@),
        ensures
            final(self)@ == old(self)@.insert(slot.key@, slot.entry@),
    {
        proof {
            use_type_invariant(&*self);
        }
        let ghost s = pairs_of(self.slots@);
        let ghost pair = (slot.key@, slot.entry@);
        proof {
            lemma_located(s, slot.key@, p as int, slot.entry@);
            lemma_assoc_insert(s, p as int, slot.key@, slot.entry@);
        }
        let mut slots: Vec<Slot> = Vec::new();
        std::mem::swap(&mut slots, &mut self.slots);
        slots.insert(p, slot);
        assert(pairs_of(slots@) =~= s.insert(p as int, pair));
        self.slots = slots;
    }

    /// Replaces the entry of the slot at `p`.
    fn replace_entry(&mut self, p: usize, entry: Entry)
        requires
            p < old(self).slots@.len(),
        ensures
            final(self)@ == old(self)@.insert(pairs_of(old(self).slots@)[p as int].0, entry@),
    {
        proof {
            use_type_invariant(&*self);
        }
        let ghost s = pairs_of(self.slots@);
        proof {
            lemma_assoc_update(s, p as int, entry@);
        }
        let mut slots: Vec<Slot> = Vec::new();
        std::mem::swap(&mut slots, &mut self.slots);
        let key = slots[p].key.clone();
        slots.set(p, Slot { key, entry });
        assert(pairs_of(slots@) =~= s.update(p as int, (s[p as int].0, entry@)));
        self.slots = slots;
    }

    /// Removes the slot at `p` and hands back its entry.
    fn drop_slot(&mut self, p: usize) -> (e: Entry)
        requires
            p < old(self).slots@.len(),
        ensures
            final(self)@ == old(self)@.remove(pairs_of(old(self).slots@)[p as int].0),
            e@ == pairs_of(old(self).slots@)[p as int].1,
            old(self)@[pairs_of(old(self).slots@)[p as int].0] == e@,
    {
        proof {
            use_type_invariant(&*self);
        }
        let ghost s = pairs_of(self.slots@);
        proof {
            lemma_assoc_remove(s, p as int);
            lemma_assoc_at(s, p as int);
        }
        let mut slots: Vec<Slot> = Vec::new();
        std::mem::swap(&mut slots, &mut self.slots);
        let slot = slots.remove(p);
        assert(pairs_of(slots@) =~= s.remove(p as int));
        self.slots = slots;
        slot.entry
    }

    /// Finds `key`: `Some` position of its slot, or `None` with nothing changed.
    fn find(&self, key: &[char]) -> (r: Option<usize>)
        ensures
            r is None ==> !self@.contains_key(key@),
            r matches Some(p) ==> p < self.slots@.len() && pairs_of(self.slots@)[p as int].0
                == key@ && self@.contains_key(key@) && self@[key@] == pairs_of(self.slots@)[p as int].1,
    {
        proof {
            use_type_invariant(self);
        }
        let (p, found) = self.locate(key);
        proof {
            lemma_located(pairs_of(self.slots@), key@, p as int, EntryView { value: Seq::empty(), expire_at_ms: None });
        }
        if found {
            proof {
                lemma_assoc_at(pairs_of(self.slots@), p as int);
            }
            Some(p)
        } else {
            None
        }
    }

    /// Writes `value` under `key`, replacing what was there; `expire_at_ms` of `None` means
    /// the entry never expires.
    pub fn set(&mut self, key: String, value: String, expire_at_ms: Option<u64>)
        ensures
            final(self)@ == old(self)@.insert(key@, EntryView { value: value@, expire_at_ms }),
    {
        proof {
            use_type_invariant(&*self);
        }
        let k = chars_of(key.as_str());
        let entry = Entry { value, expire_at_ms };
        let (p, found) = self.locate(k.as_slice());
        if found {
            self.replace_entry(p, entry);
        } else {
            self.put_new(p, Slot { key: k, entry });
        }
    }

    /// Reads `key` at time `now`. An expired entry that the read meets is removed and
    /// reads as absent.
    pub fn get_at(&mut self, key: &str, now: u64) -> (r: Option<&str>)
        ensures
            text_opt(r) == lookup(old(self)@, key@, now),
            final(self)@ == after_read(old(self)@, key@, now),
    {
        let k = chars_of(key);
        match self.find(k.as_slice()) {
            Some(p) => {
                if self.slots[p].entry.is_expired(now) {
                    self.drop_slot(p);
                    None
                } else {
                    Some(self.slots[p].entry.value.as_str())
                }
            },
            None => None,
        }
    }
}

/// The entries of `s` that have not expired at `now`, in their order.
pub open spec fn keep_live(s: Pairs, now: u64) -> Pairs
    decreases s.len(),
{
    if s.len() == 0 {
        s
    } else if expired(s.last().1, now) {
        keep_live(s.drop_last(), now)
    } else {
        keep_live(s.drop_last(), now).push(s.last())
    }
}

/// Keeping the live entries of an ascending sequence gives an ascending sequence whose map
/// holds exactly the live entries.
proof fn lemma_keep_live(s: Pairs, now: u64)
    requires
        sorted_pairs(s),
    ensures
        sorted_pairs(keep_live(s, now)),
        assoc(keep_live(s, now)) == purged(assoc(s), now),
    decreases s.len(),
{
    if s.len() == 0 {
        assert(assoc(s) =~= Map::<Seq<char>, EntryView>::empty());
        assert(purged(assoc(s), now) =~= Map::<Seq<char>, EntryView>::empty());
    } else {
        let t = s.drop_last();
        let x = s.last();
        assert(sorted_pairs(t));
        lemma_keep_live(t, now);
        let kt = keep_live(t, now);
        assert(s =~= t.insert(t.len() as int, x));
        assert(!has_key(t, x.0)) by {
            if has_key(t, x.0) {
                let j = position_of(t, x.0);
                lemma_sorted_distinct(s, j, s.len() - 1);
            }
        }
        lemma_assoc_insert(t, t.len() as int, x.0, x.1);
        assert forall|i: int| 0 <= i < kt.len() implies lex_lt(#[trigger] kt[i].0, x.0) by {
            lemma_assoc_at(kt, i);
            assert(assoc(t).contains_key(kt[i].0));
            let j = position_of(t, kt[i].0);
            assert(s[j] == t[j]);
        }
        assert(!has_key(kt, x.0)) by {
            if has_key(kt, x.0) {
                let j = position_of(kt, x.0);
                lemma_lex_irreflexive(x.0);
            }
        }
        if expired(x.1, now) {
            assert(purged(assoc(s), now) =~= purged(assoc(t), now));
        } else {
            let ks = kt.push(x);
            assert(ks =~= kt.insert(kt.len() as int, x));
            assert(sorted_pairs(ks)) by {
                assert forall|i: int, j: int| 0 <= i < j < ks.len() implies lex_lt(ks[i].0, ks[j].0) by {
                    if j < kt.len() {
                        assert(ks[i] == kt[i] && ks[j] == kt[j]);
                    } else {
                        assert(ks[i] == kt[i]);
                    }
                }
            }
            lemma_assoc_insert(kt, kt.len() as int, x.0, x.1);
            assert(purged(assoc(s), now) =~= purged(assoc(t), now).insert(x.0, x.1));
        }
    }
}

/// The keys of `s`, in order.
pub open spec fn keys_of(s: Pairs) -> Seq<Seq<char>> {
    s.map_values(|p: (Seq<char>, EntryView)| p.0)
}

/// A listing of an ascending sequence lists the keys of its map.
proof fn lemma_keys_of(s: Pairs)
    requires
        sorted_pairs(s),
    ensures
        lists_keys(keys_of(s), assoc(s)),
{
    let ks = keys_of(s);
    lemma_assoc_finite(s);
    assert forall|k: Seq<char>| assoc(s).contains_key(k) <==> ks.contains(k) by {
        if has_key(s, k) {
            let i = position_of(s, k);
            assert(ks[i] == k);
        }
        if ks.contains(k) {
            let i = choose|i: int| 0 <= i < ks.len() && ks[i] == k;
            assert(s[i].0 == k);
        }
    }
}

/// Stored values paired with their keys, as plain views.
pub open spec fn entry_pairs(v: Seq<(String, Entry)>) -> Pairs {
    v.map_values(|p: (String, Entry)| (p.0@, p.1@))
}

impl Store {
    /// Removes `key`, handing back the entry it had, expired or not.
    pub fn take(&mut self, key: &str) -> (r: Option<Entry>)
        ensures
            final(self)@ == old(self)@.remove(key@),
            r is None <==> !old(self)@.contains_key(key@),
            r matches Some(e) ==> e@ == old(self)@[key@],
    {
        let k = chars_of(key);
        match self.find(k.as_slice()) {
            Some(p) => Some(self.drop_slot(p)),
            None => None,
        }
    }

    /// Removes `key` at time `now`; true when a live entry was removed.
    pub fn remove_at(&mut self, key: &str, now: u64) -> (r: bool)
        ensures
            final(self)@ == old(self)@.remove(key@),
            r == (old(self)@.contains_key(key@) && !expired(old(self)@[key@], now)),
    {
        match self.take(key) {
            Some(e) => !e.is_expired(now),
            None => false,
        }
    }

    /// Removes every entry that has expired at time `now`.
    pub fn purge_at(&mut self, now: u64)
        ensures
            final(self)@ == purged(old(self)@, now),
    {
        proof {
            use_type_invariant(&*self);
        }
        let ghost s = pairs_of(self.slots@);
        let mut slots: Vec<Slot> = Vec::new();
        std::mem::swap(&mut slots, &mut self.slots);
        let mut kept: Vec<Slot> = Vec::new();
        let n = slots.len();
        let mut i: usize = 0;
        while i < n
            invariant
                n == s.len(),
                n == slots@.len(),
                pairs_of(slots@) == s,
                0 <= i <= n,
                pairs_of(kept@) == keep_live(s.take(i as int), now),
            decreases n - i,
        {
            let ghost before = pairs_of(kept@);
            proof {
                assert(s.take(i as int + 1).drop_last() =~= s.take(i as int));
                assert(s.take(i as int + 1).last() == s[i as int]);
            }
            if !slots[i].entry.is_expired(now) {
                let slot = Slot { key: slots[i].key.clone(), entry: slots[i].entry.duplicate() };
                kept.push(slot);
                assert(pairs_of(kept@) =~= before.push(s[i as int]));
            } else {
                assert(pairs_of(kept@) =~= before);
            }
            i = i + 1;
        }
        proof {
            assert(s.take(n as int) =~= s);
            lemma_keep_live(s, now);
        }
        self.slots = kept;
    }

    /// Lists the keys live at time `now`, ascending; expired entries are removed.
    pub fn keys_at(&mut self, now: u64) -> (r: Vec<String>)
        ensures
            final(self)@ == purged(old(self)@, now),
            lists_keys(views(r@), final(self)@),
    {
        self.purge_at(now);
        proof {
            use_type_invariant(&*self);
            lemma_keys_of(pairs_of(self.slots@));
        }
        let mut out: Vec<String> = Vec::new();
        let mut i: usize = 0;
        while i < self.slots.len()
            invariant
                i <= self.slots@.len(),
                out@.len() == i,
                forall|j: int| 0 <= j < i ==> (#[trigger] out@[j])@ == self.slots@[j].key@,
            decreases self.slots@.len() - i,
        {
            out.push(string_of(self.slots[i].key.as_slice()));
            i = i + 1;
        }
        assert(views(out@) =~= keys_of(pairs_of(self.slots@)));
        out
    }

    /// The number of entries live at time `now`; expired entries are removed.
    pub fn len_at(&mut self, now: u64) -> (r: usize)
        ensures
            final(self)@ == purged(old(self)@, now),
            r == final(self)@.dom().len(),
    {
        self.purge_at(now);
        proof {
            use_type_invariant(&*self);
            lemma_assoc_finite(pairs_of(self.slots@));
        }
        self.slots.len()
    }

    /// Whether no entry is live at time `now`; expired entries are removed.
    pub fn is_empty_at(&mut self, now: u64) -> (r: bool)
        ensures
            final(self)@ == purged(old(self)@, now),
            r == (final(self)@.dom().len() == 0),
    {
        self.len_at(now) == 0
    }

    /// The entries live at time `now`, ascending by key, as the log compaction writes them;
    /// expired entries are removed.
    pub fn iter_valid_at(&mut self, now: u64) -> (r: Vec<(String, Entry)>)
        ensures
            final(self)@ == purged(old(self)@, now),
            sorted_pairs(entry_pairs(r@)),
            assoc(entry_pairs(r@)) == final(self)@,
    {
        self.purge_at(now);
        proof {
            use_type_invariant(&*self);
        }
        let mut out: Vec<(String, Entry)> = Vec::new();
        let mut i: usize = 0;
        while i < self.slots.len()
            invariant
                i <= self.slots@.len(),
                out@.len() == i,
                forall|j: int|
                    0 <= j < i ==> (#[trigger] out@[j]).0@ == self.slots@[j].key@ && out@[j].1@
                        == self.slots@[j].entry@,
            decreases self.slots@.len() - i,
        {
            let key = string_of(self.slots[i].key.as_slice());
            let entry = self.slots[i].entry.duplicate();
            out.push((key, entry));
            i = i + 1;
        }
        assert(entry_pairs(out@) =~= pairs_of(self.slots@));
        out
    }
}

/// An entry that has not expired at the time of a read is what the read finds, and the read
/// leaves the content as it was.
pub proof fn lemma_live_entry_is_read(m: KvMap, k: Seq<char>, now: u64)
    requires
        m.contains_key(k),
        !expired(m[k], now),
    ensures
        lookup(m, k, now) == Some(m[k].value),
        after_read(m, k, now) == m,
{
}

/// An entry whose expiry time has come is not found, and the read removes it.
pub proof fn lemma_expired_entry_is_dropped(m: KvMap, k: Seq<char>, now: u64)
    requires
        m.contains_key(k),
        m[k].expire_at_ms matches Some(t) && t <= now,
    ensures
        lookup(m, k, now) is None,
        after_read(m, k, now) == m.remove(k),
{
}

/// The current time in UNIX milliseconds: `SystemTime::now()` measured from `UNIX_EPOCH`, or 0
/// for a clock set before the epoch. Nothing is stated of the value: it reads the system clock.
#[verifier::external_body]
pub fn now_ms() -> u64 {
    match std::time::SystemTime::now().duration_since(std::time::UNIX_EPOCH) {
        Ok(d) => d.as_millis() as u64,
        Err(_) => 0,
    }
}

impl Store {
    /// Reads `key` at the current time, a reading of [`now_ms`]; see [`Store::get_at`].
    pub fn get(&mut self, key: &str) -> (r: Option<&str>)
        ensures
            exists|now: u64|
                call_ensures(now_ms, (), now) && text_opt(r) == lookup(old(self)@, key@, now)
                    && final(self)@ == after_read(old(self)@, key@, now),
    {
        let now = now_ms();
        let r = self.get_at(key, now);
        assert(text_opt(r) == lookup(old(self)@, key@, now));
        r
    }

    /// Removes `key`; true when the entry removed had not expired at the current time.
    pub fn remove(&mut self, key: &str) -> (r: bool)
        ensures
            final(self)@ == old(self)@.remove(key@),
            !old(self)@.contains_key(key@) ==> !r,
            old(self)@.contains_key(key@) ==> exists|now: u64|
                call_ensures(now_ms, (), now) && r == !expired(old(self)@[key@], now),
    {
        match self.take(key) {
            Some(e) => {
                let now = now_ms();
                let r = !e.is_expired(now);
                assert(r == !expired(old(self)@[key@], now));
                r
            },
            None => false,
        }
    }

    /// Lists the keys live at the current time, ascending; see [`Store::keys_at`].
    pub fn keys(&mut self) -> (r: Vec<String>)
        ensures
            exists|now: u64|
                call_ensures(now_ms, (), now) && final(self)@ == purged(old(self)@, now),
            lists_keys(views(r@), final(self)@),
    {
        let now = now_ms();
        let r = self.keys_at(now);
        assert(final(self)@ == purged(old(self)@, now));
        r
    }

    /// The number of keys live at the current time; see [`Store::len_at`].
    pub fn len(&mut self) -> (r: usize)
        ensures
            exists|now: u64|
                call_ensures(now_ms, (), now) && final(self)@ == purged(old(self)@, now),
            r == final(self)@.dom().len(),
    {
        let now = now_ms();
        let r = self.len_at(now);
        assert(final(self)@ == purged(old(self)@, now));
        r
    }

    /// Whether no key is live at the current time.
    pub fn is_empty(&mut self) -> (r: bool)
        ensures
            exists|now: u64|
                call_ensures(now_ms, (), now) && final(self)@ == purged(old(self)@, now),
            r == (final(self)@.dom().len() == 0),
    {
        self.len() == 0
    }

    /// The entries live at the current time, ascending by key; see [`Store::iter_valid_at`].
    pub fn iter_valid(&mut self) -> (r: Vec<(String, Entry)>)
        ensures
            exists|now: u64|
                call_ensures(now_ms, (), now) && final(self)@ == purged(old(self)@, now),
            sorted_pairs(entry_pairs(r@)),
            assoc(entry_pairs(r@)) == final(self)@,
    {
        let now = now_ms();
        let r = self.iter_valid_at(now);
        assert(final(self)@ == purged(old(self)@, now));
        r
    }
}

} // verus!
