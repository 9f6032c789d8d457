use std::time::{Duration, Instant};
use vstd::prelude::*;

verus! {

/// Nanoseconds in one second: the unit of every timestamp and lifetime below.
pub const NANOS_PER_SEC: u128 = 1_000_000_000;

#[verifier::external_type_specification]
#[verifier::external_body]
pub struct ExInstant(Instant);

/// Relies on `Instant::now`: a reading of the monotonic clock, of which nothing is known.
pub assume_specification[ Instant::now ]() -> Instant;

/// Relies on `Instant::elapsed`: how far the monotonic clock has advanced since
/// `origin`. The value depends on when it is read.
pub assume_specification[ Instant::elapsed ](origin: &Instant) -> Duration;

/// Relies on `Duration::as_nanos`: the length of `d` in whole nanoseconds. Duration
/// has no model here, so nothing is stated of the number.
pub assume_specification[ Duration::as_nanos ](d: &Duration) -> u128;

/// What one cached entry holds.
pub struct EntryView {
    pub key: Seq<char>,
    pub val: Seq<char>,
    pub put_time: int,
}

/// The cache as a value: its entries from most to least recently used, its
/// capacity and the lifetime of an entry.
pub struct CacheView {
    pub entries: Seq<EntryView>,
    pub capacity: nat,
    pub lifetime: int,
}

/// An entry stored at `put_time` has expired at `now` once more than `lifetime`
/// has passed. A clock that reads earlier than `put_time` never expires it.
pub open spec fn is_expired(put_time: int, now: int, lifetime: int) -> bool {
    put_time <= now && now - put_time > lifetime
}

pub open spec fn opt_view(o: Option<String>) -> Option<Seq<char>> {
    match o {
        Some(s) => Some(s@),
        None => None,
    }
}

impl CacheView {
    /// The keys, most recently used first.
    pub open spec fn keys(self) -> Seq<Seq<char>> {
        self.entries.map_values(|e: EntryView| e.key)
    }

    pub open spec fn contains(self, key: Seq<char>) -> bool {
        self.keys().contains(key)
    }

    pub open spec fn position(self, key: Seq<char>) -> int {
        self.keys().index_of(key)
    }

    pub open spec fn wf(self) -> bool {
        &&& 0 <= self.lifetime
        &&& self.entries.len() <= self.capacity
        &&& self.keys().no_duplicates()
    }

    pub open spec fn with_entries(self, entries: Seq<EntryView>) -> CacheView {
        CacheView { entries, capacity: self.capacity, lifetime: self.lifetime }
    }

    /// A lookup of `key` at time `now`: the cache afterwards and the value returned.
    /// A missing key changes nothing; an expired entry is dropped and yields
    /// nothing; a live entry moves to the front and yields its value.
    pub open spec fn get(self, key: Seq<char>, now: int) -> (CacheView, Option<Seq<char>>) {
        if !self.contains(key) {
            (self, None)
        } else {
            let i = self.position(key);
            let e = self.entries[i];
            if is_expired(e.put_time, now, self.lifetime) {
                (self.with_entries(self.entries.remove(i)), None)
            } else {
                (self.with_entries(seq![e] + self.entries.remove(i)), Some(e.val))
            }
        }
    }

    /// An insertion of `key` with `val` at time `now`. A key already present is left
    /// as it is, and so is a cache of capacity zero; on a full cache the least
    /// recently used entry goes first.
    pub open spec fn put(self, key: Seq<char>, val: Seq<char>, now: int) -> CacheView {
        if self.contains(key) || self.capacity == 0 {
            self
        } else {
            let kept = if self.entries.len() == self.capacity {
                self.entries.drop_last()
            } else {
                self.entries
            };
            self.with_entries(seq![EntryView { key, val, put_time: now }] + kept)
        }
    }
}

/// With distinct keys, the key found at place `i` is cached, at place `i`.
pub proof fn lemma_position_unique(s: CacheView, key: Seq<char>, i: int)
    requires
        s.keys().no_duplicates(),
        0 <= i < s.entries.len(),
        s.entries[i].key == key,
    ensures
        s.contains(key),
        s.position(key) == i,
{
    assert(s.keys()[i] == key);
    let j = s.position(key);
    assert(0 <= j < s.keys().len() && s.keys()[j] == key);
}

proof fn lemma_remove_keeps_distinct(s: CacheView, i: int)
    requires
        s.wf(),
        0 <= i < s.entries.len(),
    ensures
        s.with_entries(s.entries.remove(i)).wf(),
        s.with_entries(s.entries.remove(i)).keys() =~= s.keys().remove(i),
{
    let t = s.with_entries(s.entries.remove(i));
    assert(t.keys() =~= s.keys().remove(i));
    assert forall|a: int, b: int|
        0 <= a < t.keys().len() && 0 <= b < t.keys().len() && a != b implies t.keys()[a]
        != t.keys()[b] by {
        let a2 = if a < i { a } else { a + 1 };
        let b2 = if b < i { b } else { b + 1 };
        assert(t.keys()[a] == s.keys()[a2]);
        assert(t.keys()[b] == s.keys()[b2]);
    }
}

proof fn lemma_front_keeps_distinct(s: CacheView, i: int)
    requires
        s.wf(),
        0 <= i < s.entries.len(),
    ensures
        s.with_entries(seq![s.entries[i]] + s.entries.remove(i)).wf(),
{
    lemma_remove_keeps_distinct(s, i);
    let r = s.with_entries(s.entries.remove(i));
    let t = s.with_entries(seq![s.entries[i]] + s.entries.remove(i));
    assert(t.keys() =~= seq![s.keys()[i]] + r.keys());
    assert forall|b: int| 0 <= b < r.keys().len() implies r.keys()[b] != s.keys()[i] by {
        let b2 = if b < i { b } else { b + 1 };
        assert(r.keys()[b] == s.keys()[b2]);
    }
    assert forall|a: int, b: int|
        0 <= a < t.keys().len() && 0 <= b < t.keys().len() && a != b implies t.keys()[a]
        != t.keys()[b] by {
        if a > 0 && b > 0 {
            assert(t.keys()[a] == r.keys()[a - 1]);
            assert(t.keys()[b] == r.keys()[b - 1]);
        } else if a == 0 {
            assert(t.keys()[b] == r.keys()[b - 1]);
        } else {
            assert(t.keys()[a] == r.keys()[a - 1]);
        }
    }
}

/// The cache that `put` leaves after inserting `keys[i]` with `vals[i]` at
/// `times[i]`, in order.
pub open spec fn put_all(
    s: CacheView,
    keys: Seq<Seq<char>>,
    vals: Seq<Seq<char>>,
    times: Seq<int>,
) -> CacheView
    decreases keys.len(),
{
    if keys.len() == 0 || vals.len() != keys.len() || times.len() != keys.len() {
        s
    } else {
        put_all(s, keys.drop_last(), vals.drop_last(), times.drop_last()).put(
            keys.last(),
            vals.last(),
            times.last(),
        )
    }
}

pub open spec fn empty_cache(capacity: nat, lifetime: int) -> CacheView {
    CacheView { entries: Seq::empty(), capacity, lifetime }
}

/// `put` keeps the cache well formed.
pub proof fn lemma_put_wf(s: CacheView, key: Seq<char>, val: Seq<char>, now: int)
    requires
        s.wf(),
    ensures
        s.put(key, val, now).wf(),
        !s.contains(key) && s.capacity > 0 ==> s.put(key, val, now).keys() =~= seq![key] + (if s.entries.len()
            == s.capacity {
            s.keys().drop_last()
        } else {
            s.keys()
        }),
{
    if !s.contains(key) && s.capacity > 0 {
        let kept = if s.entries.len() == s.capacity {
            s.entries.drop_last()
        } else {
            s.entries
        };
        let before = s.with_entries(kept);
        let t = s.put(key, val, now);
        assert(t.keys() =~= seq![key] + before.keys());
        assert(before.keys() =~= (if s.entries.len() == s.capacity {
            s.keys().drop_last()
        } else {
            s.keys()
        }));
        assert forall|b: int| 0 <= b < before.keys().len() implies before.keys()[b] != key by {
            assert(before.keys()[b] == s.keys()[b]);
        }
        assert forall|a: int, b: int|
            0 <= a < t.keys().len() && 0 <= b < t.keys().len() && a != b implies t.keys()[a]
            != t.keys()[b] by {
            if a > 0 && b > 0 {
                assert(t.keys()[a] == s.keys()[a - 1]);
                assert(t.keys()[b] == s.keys()[b - 1]);
            } else if a == 0 {
                assert(t.keys()[b] == before.keys()[b - 1]);
            } else {
                assert(t.keys()[a] == before.keys()[a - 1]);
            }
        }
    }
}

/// `get` keeps the cache well formed.
pub proof fn lemma_get_wf(s: CacheView, key: Seq<char>, now: int)
    requires
        s.wf(),
    ensures
        s.get(key, now).0.wf(),
{
    if s.contains(key) {
        let i = s.position(key);
        lemma_remove_keeps_distinct(s, i);
        lemma_front_keeps_distinct(s, i);
    }
}

proof fn lemma_put_all_entries(
    capacity: nat,
    lifetime: int,
    keys: Seq<Seq<char>>,
    vals: Seq<Seq<char>>,
    times: Seq<int>,
)
    requires
        0 <= lifetime,
        keys.no_duplicates(),
        keys.len() <= capacity,
        vals.len() == keys.len(),
        times.len() == keys.len(),
    ensures
        ({
            let r = put_all(empty_cache(capacity, lifetime), keys, vals, times);
            &&& r.wf()
            &&& r.capacity == capacity
            &&& r.lifetime == lifetime
            &&& r.entries.len() == keys.len()
            &&& forall|j: int|
                0 <= j < keys.len() ==> #[trigger] r.entries[j] == EntryView {
                    key: keys[keys.len() - 1 - j],
                    val: vals[keys.len() - 1 - j],
                    put_time: times[keys.len() - 1 - j],
                }
        }),
    decreases keys.len(),
{
    let e = empty_cache(capacity, lifetime);
    if keys.len() == 0 {
        assert(e.keys() =~= Seq::empty());
    } else {
        let n = keys.len() - 1;
        let ks = keys.drop_last();
        assert forall|a: int, b: int|
            0 <= a < ks.len() && 0 <= b < ks.len() && a != b implies ks[a] != ks[b] by {
            assert(ks[a] == keys[a] && ks[b] == keys[b]);
        }
        lemma_put_all_entries(capacity, lifetime, ks, vals.drop_last(), times.drop_last());
        let p = put_all(e, ks, vals.drop_last(), times.drop_last());
        assert(!p.contains(keys.last())) by {
            if p.contains(keys.last()) {
                let j = choose|j: int| 0 <= j < p.keys().len() && p.keys()[j] == keys.last();
                assert(p.entries[j].key == keys[n - 1 - j]);
            }
        }
        lemma_put_wf(p, keys.last(), vals.last(), times.last());
        let r = p.put(keys.last(), vals.last(), times.last());
        assert forall|j: int| 0 < j < keys.len() implies #[trigger] r.entries[j] == EntryView {
            key: keys[keys.len() - 1 - j],
            val: vals[keys.len() - 1 - j],
            put_time: times[keys.len() - 1 - j],
        } by {
            assert(r.entries[j] == p.entries[j - 1]);
        }
    }
}

/// With at most `capacity` distinct keys put into an empty cache, every one of
/// them is retrievable with its own value at any time at which none has expired.
pub proof fn lemma_fill_below_capacity(
    capacity: nat,
    lifetime: int,
    keys: Seq<Seq<char>>,
    vals: Seq<Seq<char>>,
    times: Seq<int>,
    now: int,
)
    requires
        0 <= lifetime,
        keys.no_duplicates(),
        keys.len() <= capacity,
        vals.len() == keys.len(),
        times.len() == keys.len(),
        forall|i: int| 0 <= i < keys.len() ==> !is_expired(#[trigger] times[i], now, lifetime),
    ensures
        forall|i: int|
            0 <= i < keys.len() ==> (#[trigger] put_all(
                empty_cache(capacity, lifetime),
                keys,
                vals,
                times,
            ).get(keys[i], now)).1 == Some(vals[i]),
{
    lemma_put_all_entries(capacity, lifetime, keys, vals, times);
    let r = put_all(empty_cache(capacity, lifetime), keys, vals, times);
    assert forall|i: int| 0 <= i < keys.len() implies (#[trigger] r.get(keys[i], now)).1 == Some(
        vals[i],
    ) by {
        let j = keys.len() - 1 - i;
        assert(r.entries[j].key == keys[i]);
        lemma_position_unique(r, keys[i], j);
        assert(!is_expired(times[i], now, lifetime));
    }
}

/// Putting a new key into a full cache of positive capacity evicts exactly the least recently used
/// entry, which is no longer retrievable; every other entry stays.
pub proof fn lemma_full_put_evicts_oldest(s: CacheView, key: Seq<char>, val: Seq<char>, now: int, later: int)
    requires
        s.wf(),
        s.capacity > 0,
        s.entries.len() == s.capacity,
        !s.contains(key),
    ensures
        s.put(key, val, now).keys() == seq![key] + s.keys().drop_last(),
        !s.put(key, val, now).contains(s.keys().last()),
        s.put(key, val, now).get(s.keys().last(), later).1 == None::<Seq<char>>,
{
    lemma_put_wf(s, key, val, now);
    let r = s.put(key, val, now);
    let old_key = s.keys().last();
    if r.contains(old_key) {
        let j = choose|j: int| 0 <= j < r.keys().len() && r.keys()[j] == old_key;
        if j == 0 {
            assert(s.keys()[s.keys().len() - 1] == key);
        } else {
            assert(r.keys()[j] == s.keys()[j - 1]);
            assert(s.keys()[j - 1] == s.keys()[s.keys().len() - 1]);
        }
    }
}

/// After `put(a)`, `put(b)` and a lookup of `a` before it expires, `a` is the most
/// recently used key and `b` the next; from an empty cache they are all it holds.
pub proof fn lemma_get_moves_to_front(
    s: CacheView,
    a: Seq<char>,
    va: Seq<char>,
    t1: int,
    b: Seq<char>,
    vb: Seq<char>,
    t2: int,
    t3: int,
)
    requires
        s.wf(),
        s.capacity >= 2,
        a != b,
        !s.contains(a),
        !s.contains(b),
        !is_expired(t1, t3, s.lifetime),
    ensures
        ({
            let r = s.put(a, va, t1).put(b, vb, t2).get(a, t3);
            &&& r.1 == Some(va)
            &&& r.0.keys()[0] == a
            &&& r.0.keys()[1] == b
            &&& s.entries.len() == 0 ==> r.0.keys() == seq![a, b]
        }),
{
    lemma_put_wf(s, a, va, t1);
    let s1 = s.put(a, va, t1);
    assert(!s1.contains(b)) by {
        if s1.contains(b) {
            let j = choose|j: int| 0 <= j < s1.keys().len() && s1.keys()[j] == b;
            assert(s1.keys()[j] == s.keys()[j - 1]);
        }
    }
    lemma_put_wf(s1, b, vb, t2);
    let s2 = s1.put(b, vb, t2);
    assert(s2.entries[1] == EntryView { key: a, val: va, put_time: t1 });
    lemma_position_unique(s2, a, 1);
    let r = s2.get(a, t3);
    assert(r.0.entries[1] == s2.entries[0]);
    if s.entries.len() == 0 {
        assert(r.0.keys() =~= seq![a, b]);
    }
}

/// A fresh entry looked up after its lifetime has passed yields nothing and is
/// gone: in a cache of positive capacity, a later `put` of the same key stores
/// the new value.
pub proof fn lemma_expired_entry_is_removed(
    s: CacheView,
    key: Seq<char>,
    v1: Seq<char>,
    t1: int,
    t2: int,
    v2: Seq<char>,
    t3: int,
    t4: int,
)
    requires
        s.wf(),
        s.capacity > 0,
        !s.contains(key),
        t1 <= t2,
        t2 - t1 > s.lifetime,
        !is_expired(t3, t4, s.lifetime),
    ensures
        ({
            let g = s.put(key, v1, t1).get(key, t2);
            &&& g.1 == None::<Seq<char>>
            &&& !g.0.contains(key)
            &&& g.0.put(key, v2, t3).get(key, t4).1 == Some(v2)
        }),
{
    lemma_put_wf(s, key, v1, t1);
    let s1 = s.put(key, v1, t1);
    lemma_position_unique(s1, key, 0);
    lemma_get_wf(s1, key, t2);
    let g = s1.get(key, t2);
    assert(g.0.keys() =~= s1.keys().remove(0));
    assert(!g.0.contains(key)) by {
        if g.0.contains(key) {
            let j = choose|j: int| 0 <= j < g.0.keys().len() && g.0.keys()[j] == key;
            assert(g.0.keys()[j] == s1.keys()[j + 1]);
        }
    }
    lemma_put_wf(g.0, key, v2, t3);
    lemma_position_unique(g.0.put(key, v2, t3), key, 0);
}

/// In a cache of positive capacity, a second `put` of a key leaves its first
/// value in place.
pub proof fn lemma_second_put_ignored(
    s: CacheView,
    key: Seq<char>,
    v1: Seq<char>,
    t1: int,
    v2: Seq<char>,
    t2: int,
    t3: int,
)
    requires
        s.wf(),
        s.capacity > 0,
        !s.contains(key),
        !is_expired(t1, t3, s.lifetime),
    ensures
        s.put(key, v1, t1).put(key, v2, t2) == s.put(key, v1, t1),
        s.put(key, v1, t1).put(key, v2, t2).get(key, t3).1 == Some(v1),
{
    lemma_put_wf(s, key, v1, t1);
    lemma_position_unique(s.put(key, v1, t1), key, 0);
}

/// One call on the cache, as a value, with the time it is made at: `Put(key, val,
/// time)` or `Get(key, time)`.
pub enum CacheOp {
    Put(Seq<char>, Seq<char>, int),
    Get(Seq<char>, int),
}

pub open spec fn op_key(op: CacheOp) -> Seq<char> {
    match op {
        CacheOp::Put(k, _, _) => k,
        CacheOp::Get(k, _) => k,
    }
}

pub open spec fn op_time(op: CacheOp) -> int {
    match op {
        CacheOp::Put(_, _, t) => t,
        CacheOp::Get(_, t) => t,
    }
}

/// The entry that a `Put` stores.
pub open spec fn put_entry(op: CacheOp) -> EntryView {
    match op {
        CacheOp::Put(k, v, t) => EntryView { key: k, val: v, put_time: t },
        CacheOp::Get(k, t) => EntryView { key: k, val: Seq::empty(), put_time: t },
    }
}

pub open spec fn apply_op(s: CacheView, op: CacheOp) -> CacheView {
    match op {
        CacheOp::Put(k, v, t) => s.put(k, v, t),
        CacheOp::Get(k, t) => s.get(k, t).0,
    }
}

/// The cache after the calls `ops`, in order, starting from `s`.
pub open spec fn run_ops(s: CacheView, ops: Seq<CacheOp>) -> CacheView
    decreases ops.len(),
{
    if ops.len() == 0 {
        s
    } else {
        apply_op(run_ops(s, ops.drop_last()), ops.last())
    }
}

/// How many of `ops` are puts.
pub open spec fn put_count(ops: Seq<CacheOp>) -> nat
    decreases ops.len(),
{
    if ops.len() == 0 {
        0
    } else {
        put_count(ops.drop_last()) + if ops.last() is Put {
            1nat
        } else {
            0nat
        }
    }
}

/// The puts of `ops` name distinct keys, at most `capacity` of them, and no get
/// comes after the lifetime of an entry put before it has passed.
pub open spec fn fills_without_expiry(ops: Seq<CacheOp>, capacity: nat, lifetime: int) -> bool {
    &&& put_count(ops) <= capacity
    &&& forall|i: int, j: int|
        0 <= i < j < ops.len() && #[trigger] ops[i] is Put && #[trigger] ops[j] is Put ==> op_key(
            ops[i],
        ) != op_key(ops[j])
    &&& forall|i: int, j: int|
        0 <= i < j < ops.len() && #[trigger] ops[i] is Put && #[trigger] ops[j] is Get
            ==> !is_expired(op_time(ops[i]), op_time(ops[j]), lifetime)
}

spec fn run_inv(st: CacheView, ops: Seq<CacheOp>, n: int) -> bool {
    &&& st.wf()
    &&& st.entries.len() == put_count(ops.take(n))
    &&& forall|i: int|
        0 <= i < n && #[trigger] ops[i] is Put ==> st.contains(op_key(ops[i]))
            && st.entries[st.position(op_key(ops[i]))] == put_entry(ops[i])
    &&& forall|q: int| 0 <= q < st.entries.len() ==> from_put(#[trigger] st.entries[q], ops, n)
}

/// `e` is what one of the first `n` calls of `ops` put.
spec fn from_put(e: EntryView, ops: Seq<CacheOp>, n: int) -> bool {
    exists|i: int| 0 <= i < n && ops[i] is Put && #[trigger] put_entry(ops[i]) == e
}

proof fn lemma_put_count_prefix(ops: Seq<CacheOp>, n: int)
    requires
        0 <= n <= ops.len(),
    ensures
        put_count(ops.take(n)) <= put_count(ops),
    decreases ops.len(),
{
    if n == ops.len() {
        assert(ops.take(n) =~= ops);
    } else {
        assert(ops.drop_last().take(n) =~= ops.take(n));
        lemma_put_count_prefix(ops.drop_last(), n);
    }
}

proof fn lemma_run_inv(capacity: nat, lifetime: int, ops: Seq<CacheOp>, n: int)
    requires
        0 <= lifetime,
        fills_without_expiry(ops, capacity, lifetime),
        0 <= n <= ops.len(),
    ensures
        run_inv(run_ops(empty_cache(capacity, lifetime), ops.take(n)), ops, n),
        run_ops(empty_cache(capacity, lifetime), ops.take(n)).capacity == capacity,
        run_ops(empty_cache(capacity, lifetime), ops.take(n)).lifetime == lifetime,
    decreases n,
{
    let e = empty_cache(capacity, lifetime);
    if n == 0 {
        assert(ops.take(0) =~= Seq::<CacheOp>::empty());
        assert(e.keys() =~= Seq::<Seq<char>>::empty());
    } else {
        let m = n - 1;
        lemma_run_inv(capacity, lifetime, ops, m);
        let st = run_ops(e, ops.take(m));
        let op = ops[m];
        assert(ops.take(n).drop_last() =~= ops.take(m));
        assert(ops.take(n).last() == op);
        let st2 = run_ops(e, ops.take(n));
        assert(st2 == apply_op(st, op));
        match op {
            CacheOp::Put(k, v, t) => {
                assert(!st.contains(k)) by {
                    if st.contains(k) {
                        let q = choose|q: int| 0 <= q < st.keys().len() && st.keys()[q] == k;
                        assert(st.entries[q].key == k);
                        let i = choose|i: int|
                            0 <= i < m && ops[i] is Put && #[trigger] put_entry(ops[i])
                                == st.entries[q];
                        assert(op_key(ops[i]) != op_key(ops[m]));
                    }
                }
                lemma_put_count_prefix(ops, n);
                assert(st.entries.len() < capacity);
                lemma_put_wf(st, k, v, t);
                assert(st2.entries =~= seq![put_entry(op)] + st.entries);
                assert forall|i: int| 0 <= i < n && #[trigger] ops[i] is Put implies st2.contains(
                    op_key(ops[i]),
                ) && st2.entries[st2.position(op_key(ops[i]))] == put_entry(ops[i]) by {
                    if i == m {
                        lemma_position_unique(st2, k, 0);
                    } else {
                        let p = st.position(op_key(ops[i]));
                        assert(st2.entries[p + 1] == st.entries[p]);
                        lemma_position_unique(st2, op_key(ops[i]), p + 1);
                    }
                }
                assert forall|q: int| 0 <= q < st2.entries.len() implies from_put(
                    st2.entries[q],
                    ops,
                    n,
                ) by {
                    if q == 0 {
                        assert(put_entry(ops[m]) == st2.entries[0]);
                    } else {
                        assert(st2.entries[q] == st.entries[q - 1]);
                        let i = choose|i: int|
                            0 <= i < m && ops[i] is Put && #[trigger] put_entry(ops[i])
                                == st.entries[q - 1];
                        assert(put_entry(ops[i]) == st2.entries[q]);
                    }
                }
            },
            CacheOp::Get(k, t) => {
                lemma_get_wf(st, k, t);
                if st.contains(k) {
                    let p = st.position(k);
                    let en = st.entries[p];
                    let i0 = choose|i: int|
                        0 <= i < m && ops[i] is Put && #[trigger] put_entry(ops[i]) == st.entries[p];
                    assert(!is_expired(op_time(ops[i0]), op_time(ops[m]), lifetime));
                    assert(st2.entries =~= seq![en] + st.entries.remove(p));
                    assert forall|i: int| 0 <= i < n && #[trigger] ops[i] is Put implies st2.contains(
                        op_key(ops[i]),
                    ) && st2.entries[st2.position(op_key(ops[i]))] == put_entry(ops[i]) by {
                        let p2 = st.position(op_key(ops[i]));
                        let idx = if p2 == p {
                            0
                        } else if p2 < p {
                            p2 + 1
                        } else {
                            p2
                        };
                        assert(st2.entries[idx] == st.entries[p2]);
                        lemma_position_unique(st2, op_key(ops[i]), idx);
                    }
                    assert forall|q: int| 0 <= q < st2.entries.len() implies from_put(
                        st2.entries[q],
                        ops,
                        n,
                    ) by {
                        let q2 = if q == 0 {
                            p
                        } else if q - 1 < p {
                            q - 1
                        } else {
                            q
                        };
                        assert(st2.entries[q] == st.entries[q2]);
                        let i = choose|i: int|
                            0 <= i < m && ops[i] is Put && #[trigger] put_entry(ops[i])
                                == st.entries[q2];
                        assert(put_entry(ops[i]) == st2.entries[q]);
                    }
                } else {
                    assert forall|q: int| 0 <= q < st2.entries.len() implies from_put(
                        st2.entries[q],
                        ops,
                        n,
                    ) by {
                        let i = choose|i: int|
                            0 <= i < m && ops[i] is Put && #[trigger] put_entry(ops[i])
                                == st.entries[q];
                        assert(put_entry(ops[i]) == st2.entries[q]);
                    }
                }
            },
        }
    }
}

/// With at most `capacity` distinct keys put into an empty cache, and lookups of
/// any keys made in between, every lookup of a key put before it returns that
/// key's value, as long as no entry has expired when a lookup is made.
pub proof fn lemma_fill_with_lookups(capacity: nat, lifetime: int, ops: Seq<CacheOp>)
    requires
        0 <= lifetime,
        fills_without_expiry(ops, capacity, lifetime),
    ensures
        forall|i: int, j: int|
            0 <= i < j < ops.len() && #[trigger] ops[i] is Put && #[trigger] ops[j] is Get
                && op_key(ops[j]) == op_key(ops[i]) ==> run_ops(
                empty_cache(capacity, lifetime),
                ops.take(j),
            ).get(op_key(ops[j]), op_time(ops[j])).1 == Some(put_entry(ops[i]).val),
{
    assert forall|i: int, j: int|
        0 <= i < j < ops.len() && #[trigger] ops[i] is Put && #[trigger] ops[j] is Get && op_key(
            ops[j],
        ) == op_key(ops[i]) implies run_ops(empty_cache(capacity, lifetime), ops.take(j)).get(
        op_key(ops[j]),
        op_time(ops[j]),
    ).1 == Some(put_entry(ops[i]).val) by {
        lemma_run_inv(capacity, lifetime, ops, j);
        assert(!is_expired(op_time(ops[i]), op_time(ops[j]), lifetime));
    }
}

/// One cached value with the time at which it was stored.
pub struct CacheEntry {
    key: String,
    val: String,
    put_time: u128,
}

impl View for CacheEntry {
    type V = EntryView;

    closed spec fn view(&self) -> EntryView {
        EntryView { key: self.key@, val: self.val@, put_time: self.put_time as int }
    }
}

impl CacheEntry {
    /// Whether the entry has outlived `max_cache_entry_lifetime` at time `now`.
    pub fn expired(&self, now: u128, max_cache_entry_lifetime: u128) -> (r: bool)
        ensures
            r == is_expired(self@.put_time, now as int, max_cache_entry_lifetime as int),
    {
        self.put_time <= now && now - self.put_time > max_cache_entry_lifetime
    }
}

/// The interface through which the worker reads and fills its cache.
pub trait Cache {
    /// The invariant that the cache keeps between calls.
    spec fn well_formed(&self) -> bool;

    /// The cached value of `key`, if there is a live one.
    fn get(&mut self, key: &String) -> (r: Option<String>)
        requires
            old(self).well_formed(),
        ensures
            final(self).well_formed(),
    ;

    /// Caches `val` under `key`.
    fn put(&mut self, key: &String, val: String)
        requires
            old(self).well_formed(),
        ensures
            final(self).well_formed(),
    ;
}

/// A capacity-bounded cache that evicts the least recently used entry and drops
/// entries older than its lifetime when they are looked up.
pub struct LRUCache {
    /// Most recently used first.
    keys_ordered_by_use: Vec<CacheEntry>,
    max_cache_entry_lifetime: u128,
    capacity: usize,
    clock_origin: Instant,
}

impl View for LRUCache {
    type V = CacheView;

    closed spec fn view(&self) -> CacheView {
        CacheView {
            entries: self.keys_ordered_by_use@.map_values(|e: CacheEntry| e@),
            capacity: self.capacity as nat,
            lifetime: self.max_cache_entry_lifetime as int,
        }
    }
}

impl LRUCache {
    /// An empty cache holding at most `capacity` entries, each for at most
    /// `max_cache_entry_lifetime` nanoseconds.
    pub fn new(capacity: usize, max_cache_entry_lifetime: u128) -> (r: LRUCache)
        ensures
            r@ == (CacheView {
                entries: Seq::empty(),
                capacity: capacity as nat,
                lifetime: max_cache_entry_lifetime as int,
            }),
    {
        let r = LRUCache {
            keys_ordered_by_use: Vec::with_capacity(capacity),
            max_cache_entry_lifetime,
            capacity,
            clock_origin: Instant::now(),
        };
        assert(r@.entries =~= Seq::empty());
        r
    }

    pub fn len(&self) -> (r: usize)
        ensures
            r == self@.entries.len(),
    {
        self.keys_ordered_by_use.len()
    }

    /// Drops the least recently used entry.
    pub fn remove_oldest_element(&mut self)
        requires
            old(self)@.wf(),
            old(self)@.entries.len() > 0,
        ensures
            final(self)@.wf(),
            final(self)@ == old(self)@.with_entries(old(self)@.entries.drop_last()),
    {
        let ghost before = self@;
        let _oldest = self.keys_ordered_by_use.pop();
        proof {
            assert(self@.entries =~= before.entries.drop_last());
            assert(self@.keys() =~= before.keys().drop_last());
        }
    }

    /// Drops the entry of `key`, found expired. A key that is not cached is left
    /// alone.
    pub fn remove_expired_element(&mut self, key: &String)
        requires
            old(self)@.wf(),
        ensures
            final(self)@.wf(),
            final(self)@ == if old(self)@.contains(key@) {
                old(self)@.with_entries(old(self)@.entries.remove(old(self)@.position(key@)))
            } else {
                old(self)@
            },
    {
        match self.position_of(key) {
            None => {},
            Some(i) => {
                let ghost before = self@;
                let _expired = self.keys_ordered_by_use.remove(i);
                proof {
                    assert(self@.entries =~= before.entries.remove(i as int));
                    lemma_remove_keeps_distinct(before, i as int);
                }
            },
        }
    }

    /// Moves the entry of `key` to the most recently used place. A key that is not
    /// cached is left alone.
    pub fn mark_key_used(&mut self, key: &String)
        requires
            old(self)@.wf(),
        ensures
            final(self)@.wf(),
            final(self)@ == if old(self)@.contains(key@) {
                old(self)@.with_entries(
                    seq![old(self)@.entries[old(self)@.position(key@)]]
                        + old(self)@.entries.remove(old(self)@.position(key@)),
                )
            } else {
                old(self)@
            },
    {
        match self.position_of(key) {
            None => {},
            Some(i) => {
                let ghost before = self@;
                let used = self.keys_ordered_by_use.remove(i);
                proof {
                    lemma_remove_keeps_distinct(before, i as int);
                    lemma_front_keeps_distinct(before, i as int);
                }
                self.keys_ordered_by_use.insert(0, used);
                proof {
                    assert(self@.entries =~= seq![before.entries[i as int]] + before.entries.remove(
                        i as int,
                    ));
                }
            },
        }
    }

    /// A lookup of `key` at time `now`, in nanoseconds on the cache's clock.
    pub fn get_at(&mut self, key: &String, now: u128) -> (r: Option<String>)
        requires
            old(self)@.wf(),
        ensures
            final(self)@.wf(),
            (final(self)@, opt_view(r)) == old(self)@.get(key@, now as int),
    {
        match self.position_of(key) {
            None => None,
            Some(i) => {
                if self.keys_ordered_by_use[i].expired(now, self.max_cache_entry_lifetime) {
                    self.remove_expired_element(key);
                    None
                } else {
                    let val = self.keys_ordered_by_use[i].val.clone();
                    self.mark_key_used(key);
                    Some(val)
                }
            },
        }
    }

    /// An insertion of `val` under `key` at time `now`, in nanoseconds on the
    /// cache's clock. A second write of a cached key is ignored.
    pub fn put_at(&mut self, key: &String, val: String, now: u128)
        requires
            old(self)@.wf(),
        ensures
            final(self)@.wf(),
            final(self)@ == old(self)@.put(key@, val@, now as int),
    {
        if self.capacity == 0 || self.position_of(key).is_some() {
            return;
        }
        proof {
            lemma_put_wf(self@, key@, val@, now as int);
        }
        if self.keys_ordered_by_use.len() == self.capacity {
            self.remove_oldest_element();
        }
        let ghost before = self@;
        let entry = CacheEntry { key: key.clone(), val, put_time: now };
        self.keys_ordered_by_use.insert(0, entry);
        proof {
            let e = EntryView { key: key@, val: val@, put_time: now as int };
            assert(self@.entries =~= seq![e] + before.entries);
        }
    }

    /// The current time on the cache's clock: nanoseconds since the cache was made.
    pub fn now(&self) -> u128 {
        self.clock_origin.elapsed().as_nanos()
    }

    /// The cached keys, most recently used first.
    pub fn keys_ordered_by_use(&self) -> (r: Vec<String>)
        ensures
            r@.map_values(|k: String| k@) == self@.keys(),
    {
        let mut keys: Vec<String> = Vec::new();
        let mut i: usize = 0;
        while i < self.keys_ordered_by_use.len()
            invariant
                i <= self@.entries.len(),
                self@.entries.len() == self.keys_ordered_by_use@.len(),
                keys@.len() == i,
                forall|j: int| 0 <= j < i ==> #[trigger] keys@[j]@ == self@.keys()[j],
            decreases self.keys_ordered_by_use.len() - i,
        {
            keys.push(self.keys_ordered_by_use[i].key.clone());
            i = i + 1;
        }
        proof {
            assert(keys@.map_values(|k: String| k@) =~= self@.keys());
        }
        keys
    }

    /// Where `key` stands in the recency order, if it is cached.
    fn position_of(&self, key: &String) -> (r: Option<usize>)
        requires
            self@.wf(),
        ensures
            match r {
                Some(i) => self@.contains(key@) && self@.position(key@) == i,
                None => !self@.contains(key@),
            },
    {
        let mut i: usize = 0;
        while i < self.keys_ordered_by_use.len()
            invariant
                self@.wf(),
                i <= self@.entries.len(),
                self@.entries.len() == self.keys_ordered_by_use@.len(),
                forall|j: int| 0 <= j < i ==> self@.entries[j].key != key@,
            decreases self.keys_ordered_by_use.len() - i,
        {
            if self.keys_ordered_by_use[i].key == *key {
                proof {
                    lemma_position_unique(self@, key@, i as int);
                }
                return Some(i);
            }
            i = i + 1;
        }
        proof {
            if self@.contains(key@) {
                let j = choose|j: int| 0 <= j < self@.keys().len() && self@.keys()[j] == key@;
                assert(self@.entries[j].key == key@);
            }
        }
        None
    }
}

impl Cache for LRUCache {
    open spec fn well_formed(&self) -> bool {
        self@.wf()
    }

    /// A lookup at the time the cache's clock reads when it is made.
    fn get(&mut self, key: &String) -> (r: Option<String>)
        ensures
            exists|now: u128| #[trigger] old(self)@.get(key@, now as int) == (final(self)@, opt_view(r)),
    {
        let now = self.now();
        self.get_at(key, now)
    }

    /// An insertion stamped with the time the cache's clock reads when it is made.
    fn put(&mut self, key: &String, val: String)
        ensures
            exists|now: u128| #[trigger] old(self)@.put(key@, val@, now as int) == final(self)@,
    {
        let now = self.now();
        self.put_at(key, val, now);
    }
}

} // verus!
