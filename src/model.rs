//! The cache as a mathematical value: its entries as a sequence of
//! key/value pairs, from the least to the most recently used.
use vstd::prelude::*;

verus! {

/// Whether `k` is the key of some entry of `s`.
pub open spec fn has_key<K, V>(s: Seq<(K, V)>, k: K) -> bool {
    exists|i: int| 0 <= i < s.len() && (#[trigger] s[i]).0 == k
}

/// The place of the entry with key `k` in `s` (meaningful when `has_key`).
pub open spec fn position_of<K, V>(s: Seq<(K, V)>, k: K) -> int {
    choose|i: int| 0 <= i < s.len() && (#[trigger] s[i]).0 == k
}

/// No two entries of `s` share a key.
pub open spec fn distinct_keys<K, V>(s: Seq<(K, V)>) -> bool {
    forall|i: int, j: int|
        0 <= i < s.len() && 0 <= j < s.len() && i != j ==> (#[trigger] s[i]).0 != (#[trigger] s[j]).0
}

/// The value stored under `k`, if any.
pub open spec fn value_of<K, V>(s: Seq<(K, V)>, k: K) -> Option<V> {
    if has_key(s, k) {
        Some(s[position_of(s, k)].1)
    } else {
        None
    }
}

/// The entries after a read of `k`: a hit moves the entry to the most
/// recently used end; a miss changes nothing.
pub open spec fn after_get<K, V>(s: Seq<(K, V)>, k: K) -> Seq<(K, V)> {
    if has_key(s, k) {
        let i = position_of(s, k);
        s.remove(i).push(s[i])
    } else {
        s
    }
}

/// The entries after a write of `v` under `k` into a cache of capacity
/// `cap`: a present key gets the new value and becomes the most recently
/// used; a new key is added as the most recently used, after the least
/// recently used entry is evicted if the cache is full.
pub open spec fn after_put<K, V>(s: Seq<(K, V)>, cap: nat, k: K, v: V) -> Seq<(K, V)> {
    if has_key(s, k) {
        s.remove(position_of(s, k)).push((k, v))
    } else if s.len() < cap {
        s.push((k, v))
    } else {
        s.subrange(1, s.len() as int).push((k, v))
    }
}

/// In entries with distinct keys, the entry with key `k` is the one at `i`.
pub proof fn lemma_position_of<K, V>(s: Seq<(K, V)>, k: K, i: int)
    requires
        distinct_keys(s),
        0 <= i < s.len(),
        s[i].0 == k,
    ensures
        has_key(s, k),
        position_of(s, k) == i,
{
    assert(has_key(s, k));
    let j = position_of(s, k);
    assert(s[j].0 == k);
}

/// A read keeps the keys distinct and the number of entries unchanged.
pub proof fn lemma_get_keeps_keys<K, V>(s: Seq<(K, V)>, k: K)
    requires
        distinct_keys(s),
    ensures
        distinct_keys(after_get(s, k)),
        after_get(s, k).len() == s.len(),
        has_key(s, k) ==> after_get(s, k).last() == s[position_of(s, k)],
        forall|q: K| has_key(after_get(s, k), q) <==> has_key(s, q),
{
    if has_key(s, k) {
        let i = position_of(s, k);
        let t = after_get(s, k);
        let n = s.len() as int;
        assert forall|a: int| 0 <= a < n implies #[trigger] t[a] == if a < i {
            s[a]
        } else if a < n - 1 {
            s[a + 1]
        } else {
            s[i]
        } by {}
        assert forall|q: K| has_key(t, q) <==> has_key(s, q) by {
            if has_key(t, q) {
                let a = choose|a: int| 0 <= a < t.len() && (#[trigger] t[a]).0 == q;
                if a < i {
                    assert(s[a].0 == q);
                } else if a < n - 1 {
                    assert(s[a + 1].0 == q);
                } else {
                    assert(s[i].0 == q);
                }
            }
            if has_key(s, q) {
                let b = choose|b: int| 0 <= b < s.len() && (#[trigger] s[b]).0 == q;
                if b < i {
                    assert(t[b].0 == q);
                } else if b > i {
                    assert(t[b - 1].0 == q);
                } else {
                    assert(t[n - 1].0 == q);
                }
            }
        }
    }
}

/// A write keeps the keys distinct, and `k` then holds `v` as the most
/// recently used entry.
pub proof fn lemma_put_keeps_keys<K, V>(s: Seq<(K, V)>, cap: nat, k: K, v: V)
    requires
        distinct_keys(s),
        0 < cap,
        s.len() <= cap,
    ensures
        after_put(s, cap, k, v).len() <= cap,
        distinct_keys(after_put(s, cap, k, v)),
        after_put(s, cap, k, v).last() == (k, v),
{
    let t = after_put(s, cap, k, v);
    let n = s.len() as int;
    if has_key(s, k) {
        let i = position_of(s, k);
        assert forall|a: int| 0 <= a < n - 1 implies #[trigger] t[a] == if a < i {
            s[a]
        } else {
            s[a + 1]
        } by {}
        assert forall|a: int, b: int|
            0 <= a < t.len() && 0 <= b < t.len() && a != b implies (#[trigger] t[a]).0 != (
            #[trigger] t[b]).0 by {
            if a == n - 1 {
                assert(t[b].0 == s[if b < i { b } else { b + 1 }].0);
            } else if b == n - 1 {
                assert(t[a].0 == s[if a < i { a } else { a + 1 }].0);
            }
        }
    } else {
        if s.len() >= cap {
            assert forall|a: int| 0 <= a < n - 1 implies #[trigger] t[a] == s[a + 1] by {}
        }
        assert forall|a: int, b: int|
            0 <= a < t.len() && 0 <= b < t.len() && a != b implies (#[trigger] t[a]).0 != (
            #[trigger] t[b]).0 by {
            if s.len() < cap {
                if a == n {
                    assert(s[b].0 != k);
                } else if b == n {
                    assert(s[a].0 != k);
                }
            } else {
                if a == n - 1 {
                    assert(s[b + 1].0 != k);
                } else if b == n - 1 {
                    assert(s[a + 1].0 != k);
                }
            }
        }
    }
}

/// Writes never take the number of entries past the capacity.
pub proof fn lemma_put_within_capacity<K, V>(s: Seq<(K, V)>, cap: nat, k: K, v: V)
    requires
        0 < cap,
        s.len() <= cap,
    ensures
        after_put(s, cap, k, v).len() <= cap,
        after_get(s, k).len() == s.len(),
{
}

/// A new key in a full cache evicts exactly the least recently used entry:
/// its key is gone afterwards and every other key stays.
pub proof fn lemma_evicts_least_recent<K, V>(s: Seq<(K, V)>, cap: nat, k: K, v: V)
    requires
        distinct_keys(s),
        0 < cap,
        s.len() == cap,
        !has_key(s, k),
    ensures
        after_put(s, cap, k, v) == s.subrange(1, s.len() as int).push((k, v)),
        !has_key(after_put(s, cap, k, v), s[0].0),
        forall|j: int| 1 <= j < s.len() ==> has_key(after_put(s, cap, k, v), #[trigger] s[j].0),
{
    let t = after_put(s, cap, k, v);
    let n = s.len() as int;
    assert forall|j: int| 1 <= j < n implies has_key(t, #[trigger] s[j].0) by {
        assert(t[j - 1] == s[j]);
    }
    if has_key(t, s[0].0) {
        let a = choose|a: int| 0 <= a < t.len() && (#[trigger] t[a]).0 == s[0].0;
        if a < n - 1 {
            assert(t[a] == s[a + 1]);
        } else {
            assert(s[0].0 != k);
        }
    }
}

/// A read makes its key the most recently used one, so a write of another
/// key right after it does not evict it, when the cache holds two entries
/// or more.
pub proof fn lemma_read_protects<K, V>(s: Seq<(K, V)>, cap: nat, k: K, k2: K, v: V)
    requires
        distinct_keys(s),
        2 <= cap,
        s.len() <= cap,
        has_key(s, k),
        k2 != k,
    ensures
        has_key(after_put(after_get(s, k), cap, k2, v), k),
{
    lemma_get_keeps_keys(s, k);
    let t = after_get(s, k);
    let n = t.len() as int;
    assert(t[n - 1].0 == k);
    let u = after_put(t, cap, k2, v);
    if has_key(t, k2) {
        let i = position_of(t, k2);
        assert(i != n - 1);
        assert(u[n - 2] == t[n - 1]);
    } else if t.len() < cap {
        assert(u[n - 1] == t[n - 1]);
    } else {
        assert(u[n - 2] == t[n - 1]);
    }
}

/// Reading twice with no write between gives the same value, and the
/// second read changes nothing.
pub proof fn lemma_get_idempotent<K, V>(s: Seq<(K, V)>, k: K)
    requires
        distinct_keys(s),
    ensures
        value_of(after_get(s, k), k) == value_of(s, k),
        after_get(after_get(s, k), k) == after_get(s, k),
{
    lemma_get_keeps_keys(s, k);
    let t = after_get(s, k);
    if has_key(s, k) {
        let n = t.len() as int;
        lemma_position_of(t, k, n - 1);
        assert(t.remove(n - 1).push(t[n - 1]) =~= t);
    }
}

/// After a write of `v` under `k`, a read of `k` gives `v`; writing the
/// same key again replaces the value without adding an entry.
pub proof fn lemma_put_overwrites<K, V>(s: Seq<(K, V)>, cap: nat, k: K, v1: V, v2: V)
    requires
        distinct_keys(s),
        0 < cap,
        s.len() <= cap,
    ensures
        value_of(after_put(s, cap, k, v1), k) == Some(v1),
        value_of(after_put(after_put(s, cap, k, v1), cap, k, v2), k) == Some(v2),
        after_put(after_put(s, cap, k, v1), cap, k, v2).len() == after_put(s, cap, k, v1).len(),
{
    lemma_put_keeps_keys(s, cap, k, v1);
    let t = after_put(s, cap, k, v1);
    lemma_position_of(t, k, t.len() - 1);
    lemma_put_keeps_keys(t, cap, k, v2);
    let u = after_put(t, cap, k, v2);
    lemma_position_of(u, k, u.len() - 1);
}

/// One operation on a cache.
pub enum Op<K, V> {
    Get(K),
    Put(K, V),
}

/// The entries after one operation.
pub open spec fn step<K, V>(s: Seq<(K, V)>, cap: nat, op: Op<K, V>) -> Seq<(K, V)> {
    match op {
        Op::Get(k) => after_get(s, k),
        Op::Put(k, v) => after_put(s, cap, k, v),
    }
}

/// The entries of a cache of capacity `cap` after the operations `ops`,
/// starting empty.
pub open spec fn run<K, V>(cap: nat, ops: Seq<Op<K, V>>) -> Seq<(K, V)>
    decreases ops.len(),
{
    if ops.len() == 0 {
        Seq::empty()
    } else {
        step(run(cap, ops.drop_last()), cap, ops.last())
    }
}

/// Whether `op`, applied to entries `s`, touches `k`: it writes `k`, or it
/// reads `k` while `k` is present.
pub open spec fn touches<K, V>(s: Seq<(K, V)>, op: Op<K, V>, k: K) -> bool {
    match op {
        Op::Get(q) => q == k && has_key(s, k),
        Op::Put(q, _) => q == k,
    }
}

/// The place in `ops` of the last operation that touched `k`, or -1 if
/// none did.
pub open spec fn last_touch<K, V>(cap: nat, ops: Seq<Op<K, V>>, k: K) -> int
    decreases ops.len(),
{
    if ops.len() == 0 {
        -1
    } else if touches(run(cap, ops.drop_last()), ops.last(), k) {
        ops.len() - 1
    } else {
        last_touch(cap, ops.drop_last(), k)
    }
}

/// Entries `s` stand in the order of the last touch of their keys by `ops`,
/// and every one of them was touched.
pub open spec fn ordered_by_touch<K, V>(cap: nat, ops: Seq<Op<K, V>>, s: Seq<(K, V)>) -> bool {
    &&& forall|i: int|
        0 <= i < s.len() ==> 0 <= #[trigger] last_touch(cap, ops, s[i].0) < ops.len()
    &&& forall|i: int, j: int|
        0 <= i < j < s.len() ==> last_touch(cap, ops, #[trigger] s[i].0) < last_touch(
            cap,
            ops,
            #[trigger] s[j].0,
        )
}

/// Whatever the operations, the entries stand in the order in which their
/// keys were last touched (written, or read while present), the least
/// recently touched first; the keys stay distinct and within capacity.
pub proof fn lemma_recency_order<K, V>(cap: nat, ops: Seq<Op<K, V>>)
    requires
        0 < cap,
    ensures
        distinct_keys(run(cap, ops)),
        run(cap, ops).len() <= cap,
        ordered_by_touch(cap, ops, run(cap, ops)),
    decreases ops.len(),
{
    if ops.len() > 0 {
        let prev = ops.drop_last();
        lemma_recency_order(cap, prev);
        let s = run(cap, prev);
        let op = ops.last();
        let t = run(cap, ops);
        let n = s.len() as int;
        let m = prev.len() as int;
        assert(t == step(s, cap, op));
        assert forall|q: K| #[trigger]
            last_touch(cap, ops, q) == if touches(s, op, q) {
                m
            } else {
                last_touch(cap, prev, q)
            } by {}
        match op {
            Op::Get(k) => {
                lemma_get_keeps_keys(s, k);
                if has_key(s, k) {
                    let p = position_of(s, k);
                    lemma_order_after_move(cap, prev, ops, s, t, p, k);
                }
            },
            Op::Put(k, v) => {
                lemma_put_keeps_keys(s, cap, k, v);
                if has_key(s, k) {
                    let p = position_of(s, k);
                    lemma_order_after_move(cap, prev, ops, s, t, p, k);
                } else if n < cap {
                    assert(s.subrange(0, n) =~= s);
                    lemma_order_after_drop(cap, prev, ops, s, t, 0, k);
                } else {
                    lemma_order_after_drop(cap, prev, ops, s, t, 1, k);
                }
            },
        }
    }
}

/// When a new key comes into a full cache, the one entry evicted is the one
/// whose key was touched least recently: its key is gone, every other key
/// stays, and each of those was touched later.
pub proof fn lemma_evicts_least_recently_touched<K, V>(
    cap: nat,
    ops: Seq<Op<K, V>>,
    k: K,
    v: V,
)
    requires
        0 < cap,
        run(cap, ops).len() == cap,
        !has_key(run(cap, ops), k),
    ensures
        ({
            let s = run(cap, ops);
            let t = run(cap, ops.push(Op::Put(k, v)));
            &&& has_key(t, k)
            &&& !has_key(t, s[0].0)
            &&& forall|q: K|
                has_key(s, q) && q != s[0].0 ==> has_key(t, q) && last_touch(cap, ops, s[0].0)
                    < #[trigger] last_touch(cap, ops, q)
        }),
{
    let s = run(cap, ops);
    let all = ops.push(Op::Put(k, v));
    assert(all.drop_last() =~= ops);
    let t = run(cap, all);
    assert(t == after_put(s, cap, k, v));
    lemma_recency_order(cap, ops);
    lemma_evicts_least_recent(s, cap, k, v);
    assert(t[t.len() - 1].0 == k);
    assert forall|q: K| has_key(s, q) && q != s[0].0 implies has_key(t, q) && last_touch(
        cap,
        ops,
        s[0].0,
    ) < #[trigger] last_touch(cap, ops, q) by {
        let j = choose|j: int| 0 <= j < s.len() && (#[trigger] s[j]).0 == q;
        assert(j != 0);
        assert(has_key(t, s[j].0));
    }
}

/// The order after an operation on `k` that moves the entry at `p` to the
/// end.
proof fn lemma_order_after_move<K, V>(
    cap: nat,
    prev: Seq<Op<K, V>>,
    ops: Seq<Op<K, V>>,
    s: Seq<(K, V)>,
    t: Seq<(K, V)>,
    p: int,
    k: K,
)
    requires
        distinct_keys(s),
        ordered_by_touch(cap, prev, s),
        0 <= p < s.len(),
        s[p].0 == k,
        t.len() == s.len(),
        t.last().0 == k,
        forall|a: int| 0 <= a < t.len() - 1 ==> #[trigger] t[a] == if a < p {
            s[a]
        } else {
            s[a + 1]
        },
        ops.len() == prev.len() + 1,
        forall|q: K| #[trigger]
            last_touch(cap, ops, q) == if q == k {
                prev.len() as int
            } else {
                last_touch(cap, prev, q)
            },
    ensures
        ordered_by_touch(cap, ops, t),
{
    let n = t.len() as int;
    assert forall|i: int| 0 <= i < n implies 0 <= #[trigger] last_touch(cap, ops, t[i].0)
        < ops.len() by {
        if i < n - 1 {
            let a = if i < p { i } else { i + 1 };
            assert(t[i] == s[a]);
            assert(s[a].0 != k);
            assert(last_touch(cap, prev, s[a].0) < prev.len());
        }
    }
    assert forall|i: int, j: int| 0 <= i < j < n implies last_touch(cap, ops, #[trigger] t[i].0)
        < last_touch(cap, ops, #[trigger] t[j].0) by {
        let a = if i < p { i } else { i + 1 };
        assert(t[i] == s[a]);
        assert(s[a].0 != k);
        assert(last_touch(cap, prev, s[a].0) < prev.len());
        if j < n - 1 {
            let b = if j < p { j } else { j + 1 };
            assert(t[j] == s[b]);
            assert(s[b].0 != k);
            assert(last_touch(cap, prev, s[a].0) < last_touch(cap, prev, s[b].0));
        }
    }
}

/// The order after an operation that writes the new key `k`, after
/// dropping the first `d` entries.
proof fn lemma_order_after_drop<K, V>(
    cap: nat,
    prev: Seq<Op<K, V>>,
    ops: Seq<Op<K, V>>,
    s: Seq<(K, V)>,
    t: Seq<(K, V)>,
    d: int,
    k: K,
)
    requires
        ordered_by_touch(cap, prev, s),
        !has_key(s, k),
        0 <= d <= 1,
        d <= s.len(),
        t == s.subrange(d, s.len() as int).push(t.last()),
        t.last().0 == k,
        ops.len() == prev.len() + 1,
        forall|q: K| #[trigger]
            last_touch(cap, ops, q) == if q == k {
                prev.len() as int
            } else {
                last_touch(cap, prev, q)
            },
    ensures
        ordered_by_touch(cap, ops, t),
{
    let n = t.len() as int;
    assert forall|i: int| 0 <= i < n implies 0 <= #[trigger] last_touch(cap, ops, t[i].0)
        < ops.len() by {
        if i < n - 1 {
            assert(t[i] == s[i + d]);
            assert(s[i + d].0 != k);
            assert(last_touch(cap, prev, s[i + d].0) < prev.len());
        }
    }
    assert forall|i: int, j: int| 0 <= i < j < n implies last_touch(cap, ops, #[trigger] t[i].0)
        < last_touch(cap, ops, #[trigger] t[j].0) by {
        assert(t[i] == s[i + d]);
        assert(s[i + d].0 != k);
        assert(last_touch(cap, prev, s[i + d].0) < prev.len());
        if j < n - 1 {
            assert(t[j] == s[j + d]);
            assert(s[j + d].0 != k);
            assert(last_touch(cap, prev, s[i + d].0) < last_touch(cap, prev, s[j + d].0));
        }
    }
}

} // verus!
