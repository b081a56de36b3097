//! The mathematical model of a cache: the recency chain as a sequence of
//! `(key, value)` pairs, head (most recently touched) first.

use vstd::assert_seqs_equal;
use vstd::prelude::*;

verus! {

/// The keys of a chain, in chain order.
pub open spec fn keys_of<T>(s: Seq<(u64, T)>) -> Seq<u64> {
    s.map_values(|p: (u64, T)| p.0)
}

/// Whether some entry of the chain `s` carries the key `k`.
pub open spec fn has_key<T>(s: Seq<(u64, T)>, k: u64) -> bool {
    exists|i: int| 0 <= i < s.len() && s[i].0 == k
}

/// The position of the entry carrying key `k`; meaningful only when
/// `has_key(s, k)` holds, and unique when the chain's keys are distinct.
pub open spec fn key_index<T>(s: Seq<(u64, T)>, k: u64) -> int {
    choose|i: int| 0 <= i < s.len() && s[i].0 == k
}

/// No key appears twice among the chain's entries.
pub open spec fn distinct_keys<T>(s: Seq<(u64, T)>) -> bool {
    forall|i: int, j: int| 0 <= i < j < s.len() ==> s[i].0 != s[j].0
}

/// The set of stored keys: the cache's index, derived from the chain.
pub open spec fn key_set<T>(s: Seq<(u64, T)>) -> Set<u64> {
    keys_of(s).to_set()
}

/// When the chain's keys are distinct, an entry with key `k` at position
/// `i` is the only one, so `key_index` picks exactly `i`.
pub proof fn lemma_key_index<T>(s: Seq<(u64, T)>, k: u64, i: int)
    requires
        distinct_keys(s),
        0 <= i < s.len(),
        s[i].0 == k,
    ensures
        has_key(s, k),
        key_index(s, k) == i,
{
    assert(has_key(s, k));
    let j = key_index(s, k);
    assert(0 <= j < s.len() && s[j].0 == k);
}

/// Moving the entry at position `j` to the head — possibly with a fresh
/// value, but under its old key — keeps the chain's keys distinct, keeps
/// its length, and stores exactly the keys stored before.
pub proof fn lemma_requeue_distinct<T>(s: Seq<(u64, T)>, j: int, p: (u64, T))
    requires
        distinct_keys(s),
        0 <= j < s.len(),
        p.0 == s[j].0,
    ensures
        distinct_keys(seq![p] + s.remove(j)),
        (seq![p] + s.remove(j)).len() == s.len(),
        forall|k: u64| has_key(seq![p] + s.remove(j), k) <==> has_key(s, k),
{
    let t = seq![p] + s.remove(j);
    s.remove_ensures(j);
    assert forall|i1: int, i2: int| 0 <= i1 < i2 < t.len() implies t[i1].0 != t[i2].0 by {
        if i1 == 0 {
            if i2 <= j {
                assert(t[i2] == s[i2 - 1]);
            } else {
                assert(t[i2] == s[i2]);
            }
        } else {
            if i1 <= j {
                assert(t[i1] == s[i1 - 1]);
            } else {
                assert(t[i1] == s[i1]);
            }
            if i2 <= j {
                assert(t[i2] == s[i2 - 1]);
            } else {
                assert(t[i2] == s[i2]);
            }
        }
    }
    assert forall|k: u64| has_key(t, k) implies has_key(s, k) by {
        let i = choose|i: int| 0 <= i < t.len() && t[i].0 == k;
        if i == 0 {
            assert(s[j].0 == k);
        } else if i <= j {
            assert(s[i - 1].0 == k);
        } else {
            assert(s[i].0 == k);
        }
    }
    assert forall|k: u64| has_key(s, k) implies has_key(t, k) by {
        let i = choose|i: int| 0 <= i < s.len() && s[i].0 == k;
        if i == j {
            assert(t[0].0 == k);
        } else if i < j {
            assert(t[i + 1].0 == k);
        } else {
            assert(t[i].0 == k);
        }
    }
}

/// Attaching an entry with a fresh key at the head keeps the chain's keys
/// distinct.
pub proof fn lemma_prepend_distinct<T>(s: Seq<(u64, T)>, p: (u64, T))
    requires
        distinct_keys(s),
        !has_key(s, p.0),
    ensures
        distinct_keys(seq![p] + s),
{
    let t = seq![p] + s;
    assert forall|i1: int, i2: int| 0 <= i1 < i2 < t.len() implies t[i1].0 != t[i2].0 by {
        if i1 == 0 {
            assert(t[i2] == s[i2 - 1]);
            if t[0].0 == t[i2].0 {
                assert(s[i2 - 1].0 == p.0);
                assert(has_key(s, p.0));
            }
        } else {
            assert(t[i1] == s[i1 - 1]);
            assert(t[i2] == s[i2 - 1]);
        }
    }
}

/// Pointwise reading of a chain's key sequence.
pub proof fn lemma_keys_of_index<T>(s: Seq<(u64, T)>)
    ensures
        keys_of(s).len() == s.len(),
        forall|i: int| 0 <= i < s.len() ==> #[trigger] keys_of(s)[i] == s[i].0,
{
}

/// The cache invariant, read off the chain: when the chain's keys are
/// distinct, each key appears exactly once, so the key index — the set of
/// stored keys — is exactly as large as the chain. (The chain is a
/// sequence, hence cycle-free by construction.)
pub proof fn lemma_index_matches_chain<T>(s: Seq<(u64, T)>)
    requires
        distinct_keys(s),
    ensures
        keys_of(s).no_duplicates(),
        key_set(s).len() == s.len(),
        forall|k: u64| key_set(s).contains(k) <==> has_key(s, k),
{
    lemma_keys_of_index(s);
    assert forall|i: int, j: int|
        0 <= i < keys_of(s).len() && 0 <= j < keys_of(s).len() && i != j implies keys_of(s)[i]
        != keys_of(s)[j] by {
        if i < j {
            assert(s[i].0 != s[j].0);
        } else {
            assert(s[j].0 != s[i].0);
        }
    }
    keys_of(s).unique_seq_to_set();
    assert forall|k: u64| key_set(s).contains(k) implies has_key(s, k) by {
        let i = choose|i: int| 0 <= i < keys_of(s).len() && keys_of(s)[i] == k;
        assert(s[i].0 == k);
    }
    assert forall|k: u64| has_key(s, k) implies key_set(s).contains(k) by {
        let i = choose|i: int| 0 <= i < s.len() && s[i].0 == k;
        assert(keys_of(s)[i] == k);
        assert(keys_of(s).contains(k));
    }
}

/// Recency order: each operation puts the key it touched at the head of
/// the chain and keeps every other key in its old relative order. The
/// three equations cover the three shapes an operation's contract
/// produces — promoting the entry at position `j`, attaching a fresh
/// entry, and attaching a fresh entry after the tail was evicted — and
/// state each over the chain's key sequence.
pub proof fn lemma_recency_order<T>(s: Seq<(u64, T)>, j: int, p: (u64, T))
    requires
        0 <= j < s.len(),
    ensures
        keys_of(seq![p] + s) == seq![p.0] + keys_of(s),
        keys_of(seq![p] + s.remove(j)) == seq![p.0] + keys_of(s).remove(j),
        keys_of(seq![p] + s.drop_last()) == seq![p.0] + keys_of(s).drop_last(),
{
    lemma_keys_of_index(s);
    lemma_keys_of_index(seq![p] + s);
    lemma_keys_of_index(s.remove(j));
    lemma_keys_of_index(seq![p] + s.remove(j));
    lemma_keys_of_index(s.drop_last());
    lemma_keys_of_index(seq![p] + s.drop_last());
    s.remove_ensures(j);
    keys_of(s).remove_ensures(j);
    assert_seqs_equal!(keys_of(seq![p] + s) == seq![p.0] + keys_of(s), i => {
        if i > 0 {
            assert((seq![p] + s)[i] == s[i - 1]);
        }
    });
    assert_seqs_equal!(keys_of(seq![p] + s.remove(j)) == seq![p.0] + keys_of(s).remove(j), i => {
        if i > 0 {
            assert((seq![p] + s.remove(j))[i] == s.remove(j)[i - 1]);
            if i - 1 < j {
                assert(s.remove(j)[i - 1] == s[i - 1]);
                assert(keys_of(s).remove(j)[i - 1] == keys_of(s)[i - 1]);
            } else {
                assert(s.remove(j)[i - 1] == s[i]);
                assert(keys_of(s).remove(j)[i - 1] == keys_of(s)[i]);
            }
        }
    });
    assert_seqs_equal!(
        keys_of(seq![p] + s.drop_last()) == seq![p.0] + keys_of(s).drop_last(),
        i => {
            if i > 0 {
                assert((seq![p] + s.drop_last())[i] == s[i - 1]);
            }
        }
    );
}

/// The eviction property: a `put` of a fresh key into a full cache
/// removes exactly the least recently touched key — the tail's — which
/// is unretrievable afterwards; the fresh key is stored, every other key
/// survives, and the cache is exactly full again.
pub proof fn lemma_eviction<T>(s: Seq<(u64, T)>, cap: nat, k0: u64, v0: T)
    requires
        distinct_keys(s),
        !has_key(s, k0),
        s.len() == cap,
        1 <= cap,
    ensures
        step(s, cap, Op::Put { key: k0, value: v0 }) == seq![(k0, v0)] + s.drop_last(),
        !has_key(step(s, cap, Op::Put { key: k0, value: v0 }), s.last().0),
        has_key(step(s, cap, Op::Put { key: k0, value: v0 }), k0),
        forall|k: u64|
            k != s.last().0 && k != k0 ==> (has_key(
                step(s, cap, Op::Put { key: k0, value: v0 }),
                k,
            ) <==> has_key(s, k)),
        step(s, cap, Op::Put { key: k0, value: v0 }).len() == cap,
{
    let p = (k0, v0);
    let t = seq![p] + s.drop_last();
    assert(t[0].0 == p.0);
    assert forall|i: int| 0 <= i < t.len() && i > 0 implies t[i] == s[i - 1] by {}
    assert forall|k: u64| has_key(t, k) && k != p.0 implies has_key(s, k) by {
        let i = choose|i: int| 0 <= i < t.len() && t[i].0 == k;
        assert(s[i - 1].0 == k);
    }
    assert forall|k: u64| has_key(s, k) && k != s.last().0 implies has_key(t, k) by {
        let i = choose|i: int| 0 <= i < s.len() && s[i].0 == k;
        assert(i != s.len() - 1);
        assert(t[i + 1].0 == k);
    }
    if has_key(t, s.last().0) {
        assert(s.last().0 != p.0) by {
            assert(s[s.len() - 1].0 == s.last().0);
        }
        let i = choose|i: int| 0 <= i < t.len() && t[i].0 == s.last().0;
        assert(s[i - 1].0 == s.last().0);
        assert(s[s.len() - 1].0 == s.last().0);
    }
}

/// One cache operation, as the trace laws speak of it.
pub enum Op<T> {
    /// A lookup; it promotes the key it finds.
    Get { key: u64 },
    /// An insert-or-update; it promotes its key and may evict the tail.
    Put { key: u64, value: T },
}

/// What one operation does to the chain of a cache of capacity `cap`.
/// The branches state exactly what the cache operations ensure: a hit
/// promotes the entry (with the fresh value, for a put), a miss of `get`
/// changes nothing, and a put of a fresh key attaches it at the head,
/// evicting the tail when the chain is full.
pub open spec fn step<T>(s: Seq<(u64, T)>, cap: nat, op: Op<T>) -> Seq<(u64, T)> {
    match op {
        Op::Get { key } => if has_key(s, key) {
            seq![s[key_index(s, key)]] + s.remove(key_index(s, key))
        } else {
            s
        },
        Op::Put { key, value } => if has_key(s, key) {
            seq![(key, value)] + s.remove(key_index(s, key))
        } else if s.len() < cap {
            seq![(key, value)] + s
        } else {
            seq![(key, value)] + s.drop_last()
        },
    }
}

/// The chain after a whole sequence of operations, run in order against
/// an initially empty cache of capacity `cap`.
pub open spec fn run<T>(cap: nat, ops: Seq<Op<T>>) -> Seq<(u64, T)>
    decreases ops.len(),
{
    if ops.len() == 0 {
        Seq::empty()
    } else {
        step(run(cap, ops.drop_last()), cap, ops.last())
    }
}

/// Whether an operation, applied to the chain `s`, touches the key `k`:
/// a put of `k` always does, a get of `k` only when it hits.
pub open spec fn touches_key<T>(s: Seq<(u64, T)>, op: Op<T>, k: u64) -> bool {
    match op {
        Op::Get { key } => key == k && has_key(s, key),
        Op::Put { key, value } => key == k,
    }
}

/// The position of the last operation of the trace that touched `k`, or
/// `-1` when none did.
pub open spec fn last_touch<T>(cap: nat, ops: Seq<Op<T>>, k: u64) -> int
    decreases ops.len(),
{
    if ops.len() == 0 {
        -1
    } else if touches_key(run(cap, ops.drop_last()), ops.last(), k) {
        ops.len() - 1
    } else {
        last_touch(cap, ops.drop_last(), k)
    }
}

/// One transition preserves the cache invariant.
pub proof fn lemma_step_wf<T>(s: Seq<(u64, T)>, cap: nat, op: Op<T>)
    requires
        distinct_keys(s),
        s.len() <= cap,
        1 <= cap,
    ensures
        distinct_keys(step(s, cap, op)),
        step(s, cap, op).len() <= cap,
{
    match op {
        Op::Get { key } => {
            if has_key(s, key) {
                let j = key_index(s, key);
                assert(0 <= j < s.len() && s[j].0 == key);
                lemma_requeue_distinct(s, j, s[j]);
            }
        },
        Op::Put { key, value } => {
            if has_key(s, key) {
                let j = key_index(s, key);
                assert(0 <= j < s.len() && s[j].0 == key);
                lemma_requeue_distinct(s, j, (key, value));
            } else if s.len() < cap {
                lemma_prepend_distinct(s, (key, value));
            } else {
                assert forall|i: int|
                    0 <= i < s.drop_last().len() implies (#[trigger] s.drop_last()[i]).0
                    != key by {
                    assert(s[i].0 != key);
                }
                lemma_prepend_distinct(s.drop_last(), (key, value));
            }
        },
    }
}

/// A whole trace preserves the cache invariant.
pub proof fn lemma_run_wf<T>(cap: nat, ops: Seq<Op<T>>)
    requires
        1 <= cap,
    ensures
        distinct_keys(run(cap, ops)),
        run(cap, ops).len() <= cap,
    decreases ops.len(),
{
    if ops.len() > 0 {
        lemma_run_wf(cap, ops.drop_last());
        lemma_step_wf(run(cap, ops.drop_last()), cap, ops.last());
    }
}

/// No operation of a trace lies beyond its end.
proof fn lemma_last_touch_bound<T>(cap: nat, ops: Seq<Op<T>>, k: u64)
    ensures
        -1 <= last_touch(cap, ops, k) < ops.len(),
    decreases ops.len(),
{
    if ops.len() > 0 {
        lemma_last_touch_bound(cap, ops.drop_last(), k);
    }
}

/// The recency-order property, over whole traces: after any sequence of
/// operations against an initially empty cache, the chain read from head
/// to tail lists the keys from most to least recently touched — it is the
/// reverse of the order in which the stored keys were last created or
/// accessed. Every stored key was touched by some operation, and walking
/// toward the tail the time of the last touch strictly falls. The `step`
/// clause in the contracts of the cache operations makes every sequence
/// of calls against a fresh cache such a trace.
pub proof fn lemma_recency_of_trace<T>(cap: nat, ops: Seq<Op<T>>)
    requires
        1 <= cap,
    ensures
        forall|i: int|
            0 <= i < run(cap, ops).len() ==> 0 <= #[trigger] last_touch(
                cap,
                ops,
                run(cap, ops)[i].0,
            ),
        forall|i: int, j: int|
            0 <= i < j < run(cap, ops).len() ==> last_touch(cap, ops, run(cap, ops)[j].0)
                < last_touch(cap, ops, run(cap, ops)[i].0),
    decreases ops.len(),
{
    if ops.len() == 0 {
        return ;
    }
    let ops0 = ops.drop_last();
    let op = ops.last();
    let s = run(cap, ops0);
    let t = run(cap, ops);
    let n = ops.len();
    lemma_recency_of_trace(cap, ops0);
    lemma_run_wf(cap, ops0);
    assert(t == step(s, cap, op));
    // An untouched key keeps its last touch; a touched one moves to the end.
    assert forall|k: u64| !touches_key(s, op, k) implies last_touch(cap, ops, k) == last_touch(
        cap,
        ops0,
        k,
    ) by {}
    assert forall|k: u64| touches_key(s, op, k) implies last_touch(cap, ops, k) == n - 1 by {}
    match op {
        Op::Get { key } => {
            if has_key(s, key) {
                let jx = key_index(s, key);
                assert(0 <= jx < s.len() && s[jx].0 == key);
                s.remove_ensures(jx);
                lemma_chain_after_touch(cap, ops, s, t, key, jx);
            }
            // On a miss nothing is touched and the chain stands.
        },
        Op::Put { key, value } => {
            if has_key(s, key) {
                let jx = key_index(s, key);
                assert(0 <= jx < s.len() && s[jx].0 == key);
                s.remove_ensures(jx);
                lemma_chain_after_touch(cap, ops, s, t, key, jx);
            } else if s.len() < cap {
                assert forall|i: int| 1 <= i < t.len() implies #[trigger] t[i] == s[i - 1] by {}
                lemma_chain_after_attach(cap, ops, s, t, key);
            } else {
                assert forall|i: int| 1 <= i < t.len() implies #[trigger] t[i] == s[i - 1] by {}
                lemma_chain_after_attach(cap, ops, s, t, key);
            }
        },
    }
}

/// The inductive step of the trace law, for an operation that promoted
/// the entry at position `jx` of the previous chain.
proof fn lemma_chain_after_touch<T>(
    cap: nat,
    ops: Seq<Op<T>>,
    s: Seq<(u64, T)>,
    t: Seq<(u64, T)>,
    key: u64,
    jx: int,
)
    requires
        1 <= ops.len(),
        s == run(cap, ops.drop_last()),
        t == run(cap, ops),
        distinct_keys(s),
        0 <= jx < s.len(),
        s[jx].0 == key,
        touches_key(s, ops.last(), key),
        t.len() == s.len(),
        t[0].0 == key,
        forall|i: int| 1 <= i < t.len() ==> #[trigger] t[i] == s[skip_index(i - 1, jx)],
        forall|i: int|
            0 <= i < s.len() ==> 0 <= #[trigger] last_touch(cap, ops.drop_last(), s[i].0),
        forall|i: int, j: int|
            0 <= i < j < s.len() ==> last_touch(cap, ops.drop_last(), s[j].0) < last_touch(
                cap,
                ops.drop_last(),
                s[i].0,
            ),
    ensures
        forall|i: int| 0 <= i < t.len() ==> 0 <= #[trigger] last_touch(cap, ops, t[i].0),
        forall|i: int, j: int|
            0 <= i < j < t.len() ==> last_touch(cap, ops, t[j].0) < last_touch(cap, ops, t[i].0),
{
    let ops0 = ops.drop_last();
    let op = ops.last();
    let n = ops.len();
    assert(last_touch(cap, ops, key) == n - 1);
    assert forall|i: int| 1 <= i < t.len() implies t[i].0 != key && !touches_key(s, op, t[i].0) by {
        let m = skip_index(i - 1, jx);
        assert(t[i] == s[m]);
        assert(m != jx);
        assert(s[m].0 != s[jx].0);
    }
    assert forall|i: int| 0 <= i < t.len() implies 0 <= #[trigger] last_touch(cap, ops, t[i].0) by {
        if i >= 1 {
            assert(t[i] == s[skip_index(i - 1, jx)]);
            assert(last_touch(cap, ops, t[i].0) == last_touch(cap, ops0, t[i].0));
        }
    }
    assert forall|i: int, j: int| 0 <= i < j < t.len() implies last_touch(cap, ops, t[j].0)
        < last_touch(cap, ops, t[i].0) by {
        let mj = skip_index(j - 1, jx);
        assert(t[j] == s[mj]);
        assert(last_touch(cap, ops, t[j].0) == last_touch(cap, ops0, t[j].0));
        lemma_last_touch_bound(cap, ops0, t[j].0);
        if i >= 1 {
            let mi = skip_index(i - 1, jx);
            assert(t[i] == s[mi]);
            assert(mi < mj);
            assert(last_touch(cap, ops0, s[mj].0) < last_touch(cap, ops0, s[mi].0));
            assert(last_touch(cap, ops, t[i].0) == last_touch(cap, ops0, t[i].0));
        }
    }
}

/// The position in the old chain that position `i` of the promoted
/// chain's tail part came from: the entry at `jx` left its place, so the
/// positions before it stand, and those after it are shifted by one.
spec fn skip_index(i: int, jx: int) -> int {
    if i < jx {
        i
    } else {
        i + 1
    }
}

/// The inductive step of the trace law, for a put that attached a fresh
/// key at the head: every other surviving entry moved one place toward
/// the tail.
proof fn lemma_chain_after_attach<T>(
    cap: nat,
    ops: Seq<Op<T>>,
    s: Seq<(u64, T)>,
    t: Seq<(u64, T)>,
    key: u64,
)
    requires
        1 <= ops.len(),
        s == run(cap, ops.drop_last()),
        t == run(cap, ops),
        distinct_keys(s),
        !has_key(s, key),
        touches_key(s, ops.last(), key),
        t.len() <= s.len() + 1,
        1 <= t.len(),
        t[0].0 == key,
        forall|i: int| 1 <= i < t.len() ==> #[trigger] t[i] == s[i - 1],
        forall|i: int|
            0 <= i < s.len() ==> 0 <= #[trigger] last_touch(cap, ops.drop_last(), s[i].0),
        forall|i: int, j: int|
            0 <= i < j < s.len() ==> last_touch(cap, ops.drop_last(), s[j].0) < last_touch(
                cap,
                ops.drop_last(),
                s[i].0,
            ),
    ensures
        forall|i: int| 0 <= i < t.len() ==> 0 <= #[trigger] last_touch(cap, ops, t[i].0),
        forall|i: int, j: int|
            0 <= i < j < t.len() ==> last_touch(cap, ops, t[j].0) < last_touch(cap, ops, t[i].0),
{
    let ops0 = ops.drop_last();
    let op = ops.last();
    let n = ops.len();
    assert(last_touch(cap, ops, key) == n - 1);
    assert forall|i: int| 1 <= i < t.len() implies t[i].0 != key && !touches_key(s, op, t[i].0) by {
        assert(t[i] == s[i - 1]);
        if s[i - 1].0 == key {
            assert(has_key(s, key));
        }
    }
    assert forall|i: int| 0 <= i < t.len() implies 0 <= #[trigger] last_touch(cap, ops, t[i].0) by {
        if i >= 1 {
            assert(t[i] == s[i - 1]);
            assert(last_touch(cap, ops, t[i].0) == last_touch(cap, ops0, t[i].0));
        }
    }
    assert forall|i: int, j: int| 0 <= i < j < t.len() implies last_touch(cap, ops, t[j].0)
        < last_touch(cap, ops, t[i].0) by {
        assert(t[j] == s[j - 1]);
        assert(last_touch(cap, ops, t[j].0) == last_touch(cap, ops0, t[j].0));
        lemma_last_touch_bound(cap, ops0, t[j].0);
        if i >= 1 {
            assert(t[i] == s[i - 1]);
            assert(last_touch(cap, ops0, s[j - 1].0) < last_touch(cap, ops0, s[i - 1].0));
            assert(last_touch(cap, ops, t[i].0) == last_touch(cap, ops0, t[i].0));
        }
    }
}

/// Idempotence of `get` on recency: two consecutive `get`s of one key
/// leave the same chain as one alone. The first leaves its key at the
/// head — and promoting the entry already at the head changes nothing.
pub proof fn lemma_get_twice<T>(s: Seq<(u64, T)>, cap: nat, key: u64)
    requires
        distinct_keys(s),
    ensures
        step(step(s, cap, Op::Get { key }), cap, Op::Get { key }) == step(s, cap, Op::Get { key }),
{
    if has_key(s, key) {
        let j = key_index(s, key);
        assert(0 <= j < s.len() && s[j].0 == key);
        lemma_requeue_distinct(s, j, s[j]);
        let s1 = step(s, cap, Op::Get { key });
        assert(s1 == seq![s[j]] + s.remove(j));
        assert(s1[0] == s[j]);
        lemma_key_index(s1, key, 0);
        s1.remove_ensures(0);
        assert_seqs_equal!(seq![s1[0]] + s1.remove(0) == s1);
    }
}

/// Update without growth: a `put` of a key the cache already holds keeps
/// the chain's length and its set of keys, so it never evicts an entry.
pub proof fn lemma_update_without_growth<T>(s: Seq<(u64, T)>, cap: nat, k: u64, v: T)
    requires
        distinct_keys(s),
        has_key(s, k),
    ensures
        step(s, cap, Op::Put { key: k, value: v }).len() == s.len(),
        forall|k2: u64|
            has_key(step(s, cap, Op::Put { key: k, value: v }), k2) <==> has_key(s, k2),
{
    let j = key_index(s, k);
    assert(0 <= j < s.len() && s[j].0 == k);
    lemma_requeue_distinct(s, j, (k, v));
}

} // verus!
