//! A view that gives key-value access to the values stored under a base key,
//! keeping its changes in memory until they are flushed into a batch.
use crate::byte_map::ByteMap;
use crate::bytes::{
    compare_bytes, concat_bytes, copy_bytes, is_prefix, lemma_lex_asymmetric, lemma_lex_irreflexive,
    lemma_lex_total, lemma_lex_transitive, lemma_sorted_distinct, lex_lt, starts_with, strictly_sorted,
    suffix_bytes,
};
use crate::memory::{
    apply_op, apply_ops, byte_seqs, bytes_opt, entry_keys, entry_views, lemma_apply_ops_append, lemma_prefix_concat,
    lemma_prefix_split, lemma_sorted_push, map_get, strip_prefix, Batch, MemoryContext, WriteOp,
};
use crate::external::{bcs_i32, le_bytes, sha512_digest, sha512_spec};
use vstd::prelude::*;
use vstd::seq_lib::lemma_seq_contains_after_push;

verus! {

/// A view over the values stored under the base key of its context. Changes
/// are kept in `updates` (`None` for a removal) until `flush`, and
/// `was_cleared` records that everything stored before was dropped.
pub struct KeyValueStoreView {
    context: MemoryContext,
    was_cleared: bool,
    updates: ByteMap<Option<Vec<u8>>>,
}

/// What a view holds under `k`: the pending change if there is one, else
/// nothing after a clear, else what is stored under the base key and `k`.
pub open spec fn view_get(
    pending: Map<Seq<u8>, Option<Seq<u8>>>,
    cleared: bool,
    stored: Map<Seq<u8>, Seq<u8>>,
    base: Seq<u8>,
    k: Seq<u8>,
) -> Option<Seq<u8>> {
    if pending.contains_key(k) {
        pending[k]
    } else if cleared {
        None
    } else {
        map_get(stored, base + k)
    }
}

/// The keys of a finite map in increasing order: the one strictly sorted
/// sequence that holds exactly the keys of the map.
pub open spec fn key_order(m: Map<Seq<u8>, Seq<u8>>) -> Seq<Seq<u8>> {
    choose|s: Seq<Seq<u8>>|
        strictly_sorted(s) && forall|k: Seq<u8>| #[trigger] s.contains(k) <==> m.contains_key(k)
}

/// Two strictly sorted sequences with the same elements are equal.
pub proof fn lemma_sorted_unique(s: Seq<Seq<u8>>, t: Seq<Seq<u8>>)
    requires
        strictly_sorted(s),
        strictly_sorted(t),
        forall|k: Seq<u8>| #![trigger s.contains(k)] #![trigger t.contains(k)] s.contains(k) <==> t.contains(k),
    ensures
        s == t,
    decreases s.len() + t.len(),
{
    if s.len() == 0 {
        if t.len() > 0 {
            assert(t.contains(t[0]));
        }
        assert(s =~= t);
    } else if t.len() == 0 {
        assert(s.contains(s[0]));
    } else {
        assert(s.contains(s[0]));
        assert(t.contains(t[0]));
        let a = choose|a: int| 0 <= a < t.len() && t[a] == s[0];
        let b = choose|b: int| 0 <= b < s.len() && s[b] == t[0];
        if a > 0 {
            assert(lex_lt(t[0], t[a]));
            if b > 0 {
                assert(lex_lt(s[0], s[b]));
                lemma_lex_asymmetric(s[0], t[0]);
            } else {
                lemma_lex_irreflexive(s[0]);
            }
        }
        assert(s[0] == t[0]);
        let s1 = s.drop_first();
        let t1 = t.drop_first();
        assert(strictly_sorted(s1)) by {
            assert forall|i: int, j: int| 0 <= i < j < s1.len() implies lex_lt(#[trigger] s1[i], #[trigger] s1[j]) by {
                assert(s[i + 1] == s1[i] && s[j + 1] == s1[j]);
            }
        }
        assert(strictly_sorted(t1)) by {
            assert forall|i: int, j: int| 0 <= i < j < t1.len() implies lex_lt(#[trigger] t1[i], #[trigger] t1[j]) by {
                assert(t[i + 1] == t1[i] && t[j + 1] == t1[j]);
            }
        }
        assert forall|k: Seq<u8>| #![trigger s1.contains(k)] #![trigger t1.contains(k)] s1.contains(k) <==> t1.contains(k) by {
            if s1.contains(k) {
                let i = choose|i: int| 0 <= i < s1.len() && s1[i] == k;
                assert(s.contains(k));
                assert(s[i + 1] == k);
                lemma_sorted_distinct(s, 0, i + 1);
                let j = choose|j: int| 0 <= j < t.len() && t[j] == k;
                assert(j != 0);
                assert(t1[j - 1] == k);
            }
            if t1.contains(k) {
                let i = choose|i: int| 0 <= i < t1.len() && t1[i] == k;
                assert(t.contains(k));
                assert(t[i + 1] == k);
                lemma_sorted_distinct(t, 0, i + 1);
                let j = choose|j: int| 0 <= j < s.len() && s[j] == k;
                assert(j != 0);
                assert(s1[j - 1] == k);
            }
        }
        lemma_sorted_unique(s1, t1);
        assert(s =~= seq![s[0]] + s1);
        assert(t =~= seq![t[0]] + t1);
    }
}

/// Any strictly sorted sequence with the keys of `m` is `key_order(m)`.
pub proof fn lemma_key_order(m: Map<Seq<u8>, Seq<u8>>, s: Seq<Seq<u8>>)
    requires
        strictly_sorted(s),
        forall|k: Seq<u8>| #[trigger] s.contains(k) <==> m.contains_key(k),
    ensures
        key_order(m) == s,
{
    let o = key_order(m);
    assert(strictly_sorted(o) && forall|k: Seq<u8>| #[trigger] o.contains(k) <==> m.contains_key(k));
    lemma_sorted_unique(o, s);
}

/// The writes that a flush appends: a removal of everything under the base
/// key after a clear, then one write per pending change in increasing order
/// of key (a removal for `None`, skipped after a clear).
pub open spec fn flush_ops(
    base: Seq<u8>,
    keys: Seq<Seq<u8>>,
    vals: Seq<Option<Seq<u8>>>,
    cleared: bool,
) -> Seq<WriteOp>
    decreases keys.len(),
{
    if keys.len() == 0 {
        if cleared {
            seq![WriteOp::DeletePrefix(base)]
        } else {
            Seq::empty()
        }
    } else {
        let rest = flush_ops(base, keys.drop_last(), vals.drop_last(), cleared);
        match vals.last() {
            Some(v) => rest.push(WriteOp::Put(base + keys.last(), v)),
            None => if cleared {
                rest
            } else {
                rest.push(WriteOp::Delete(base + keys.last()))
            },
        }
    }
}

/// After the writes of a flush, what a store holds under the base key: the
/// pending value of a changed key, and otherwise what it held (nothing after
/// a clear).
pub proof fn lemma_flush_ops(
    m: Map<Seq<u8>, Seq<u8>>,
    base: Seq<u8>,
    keys: Seq<Seq<u8>>,
    vals: Seq<Option<Seq<u8>>>,
    cleared: bool,
)
    requires
        strictly_sorted(keys),
        keys.len() == vals.len(),
    ensures
        forall|i: int|
            0 <= i < keys.len() ==> #[trigger] map_get(
                apply_ops(m, flush_ops(base, keys, vals, cleared)),
                base + keys[i],
            ) == vals[i],
        forall|k: Seq<u8>|
            !keys.contains(k) ==> #[trigger] map_get(
                apply_ops(m, flush_ops(base, keys, vals, cleared)),
                base + k,
            ) == (if cleared {
                None
            } else {
                map_get(m, base + k)
            }),
    decreases keys.len(),
{
    let ops = flush_ops(base, keys, vals, cleared);
    let r = apply_ops(m, ops);
    if keys.len() == 0 {
        if cleared {
            assert(ops.drop_last() =~= Seq::<WriteOp>::empty());
            assert forall|k: Seq<u8>| !keys.contains(k) implies #[trigger] map_get(r, base + k) == (if cleared {
                None
            } else {
                map_get(m, base + k)
            }) by {
                lemma_prefix_concat(base, k, k);
            }
        }
    } else {
        let dk = keys.drop_last();
        let dv = vals.drop_last();
        assert(strictly_sorted(dk)) by {
            assert forall|i: int, j: int| 0 <= i < j < dk.len() implies lex_lt(#[trigger] dk[i], #[trigger] dk[j]) by {
                assert(keys[i] == dk[i] && keys[j] == dk[j]);
            }
        }
        lemma_flush_ops(m, base, dk, dv, cleared);
        let rest = flush_ops(base, dk, dv, cleared);
        let r0 = apply_ops(m, rest);
        let last = keys.last();
        assert(!dk.contains(last)) by {
            if dk.contains(last) {
                let i = choose|i: int| 0 <= i < dk.len() && dk[i] == last;
                lemma_sorted_distinct(keys, i, keys.len() - 1);
            }
        }
        match vals.last() {
            Some(v) => {
                assert(ops == rest.push(WriteOp::Put(base + last, v)));
                assert(ops.drop_last() =~= rest);
            },
            None => {
                if !cleared {
                    assert(ops == rest.push(WriteOp::Delete(base + last)));
                    assert(ops.drop_last() =~= rest);
                } else {
                    assert(ops == rest);
                }
            },
        }
        assert forall|k: Seq<u8>| k != last implies #[trigger] map_get(r, base + k) == map_get(r0, base + k) by {
            lemma_prefix_concat(base, k, last);
        }
        assert(map_get(r, base + last) == vals.last()) by {
            assert(map_get(r0, base + last) == (if cleared {
                None
            } else {
                map_get(m, base + last)
            }));
        }
        assert forall|i: int| 0 <= i < keys.len() implies #[trigger] map_get(r, base + keys[i]) == vals[i] by {
            if i < keys.len() - 1 {
                assert(dk[i] == keys[i]);
                lemma_sorted_distinct(keys, i, keys.len() - 1);
                assert(map_get(r0, base + dk[i]) == dv[i]);
            }
        }
        assert forall|k: Seq<u8>| !keys.contains(k) implies #[trigger] map_get(r, base + k) == (if cleared {
            None
        } else {
            map_get(m, base + k)
        }) by {
            assert(k != keys[keys.len() - 1]);
            if dk.contains(k) {
                let i = choose|i: int| 0 <= i < dk.len() && dk[i] == k;
                assert(keys[i] == k);
            }
        }
    }
}

/// The stored keys that no pending change covers (`prefix` put in front).
pub open spec fn kept_keys(s: Seq<Seq<u8>>, prefix: Seq<u8>, pending: Map<Seq<u8>, Option<Seq<u8>>>) -> Seq<Seq<u8>>
    decreases s.len(),
{
    if s.len() == 0 {
        Seq::empty()
    } else {
        let rest = kept_keys(s.drop_last(), prefix, pending);
        if pending.contains_key(prefix + s.last()) {
            rest
        } else {
            rest.push(s.last())
        }
    }
}

/// The pending keys with a value that start with `prefix`, in order, with
/// `prefix` taken off.
pub open spec fn pending_with_prefix(keys: Seq<Seq<u8>>, vals: Seq<Option<Seq<u8>>>, prefix: Seq<u8>) -> Seq<Seq<u8>>
    decreases keys.len(),
{
    if keys.len() == 0 {
        Seq::empty()
    } else {
        let rest = pending_with_prefix(keys.drop_last(), vals.drop_last(), prefix);
        if vals.last() is Some && is_prefix(prefix, keys.last()) {
            rest.push(keys.last().subrange(prefix.len() as int, keys.last().len() as int))
        } else {
            rest
        }
    }
}

/// The stored entries that no pending change covers (`prefix` put in front
/// of their keys).
pub open spec fn kept_entries(
    s: Seq<(Seq<u8>, Seq<u8>)>,
    prefix: Seq<u8>,
    pending: Map<Seq<u8>, Option<Seq<u8>>>,
) -> Seq<(Seq<u8>, Seq<u8>)>
    decreases s.len(),
{
    if s.len() == 0 {
        Seq::empty()
    } else {
        let rest = kept_entries(s.drop_last(), prefix, pending);
        if pending.contains_key(prefix + s.last().0) {
            rest
        } else {
            rest.push(s.last())
        }
    }
}

/// A stored key is kept exactly when no pending change covers it.
pub proof fn lemma_kept_keys(s: Seq<Seq<u8>>, prefix: Seq<u8>, pending: Map<Seq<u8>, Option<Seq<u8>>>)
    ensures
        forall|x: Seq<u8>|
            #[trigger] kept_keys(s, prefix, pending).contains(x) <==> s.contains(x) && !pending.contains_key(prefix + x),
        s.no_duplicates() ==> kept_keys(s, prefix, pending).no_duplicates(),
    decreases s.len(),
{
    if s.len() > 0 {
        let d = s.drop_last();
        let l = s.last();
        lemma_kept_keys(d, prefix, pending);
        let kd = kept_keys(d, prefix, pending);
        let r = kept_keys(s, prefix, pending);
        assert(s =~= d.push(l));
        assert forall|x: Seq<u8>| #[trigger] r.contains(x) <==> s.contains(x) && !pending.contains_key(prefix + x) by {
            lemma_seq_contains_after_push(d, l, x);
            lemma_seq_contains_after_push(kd, l, x);
        }
        if s.no_duplicates() {
            assert(d.no_duplicates()) by {
                assert forall|i: int, j: int| 0 <= i < d.len() && 0 <= j < d.len() && i != j implies d[i] != d[j] by {
                    assert(s[i] == d[i] && s[j] == d[j]);
                }
            }
            if !pending.contains_key(prefix + l) {
                assert(!d.contains(l)) by {
                    if d.contains(l) {
                        let i = choose|i: int| 0 <= i < d.len() && d[i] == l;
                        assert(s[i] == s[s.len() - 1]);
                    }
                }
                assert(!kd.contains(l));
                assert forall|i: int, j: int| 0 <= i < r.len() && 0 <= j < r.len() && i != j implies r[i] != r[j] by {
                    if i < kd.len() && j < kd.len() {
                        assert(r[i] == kd[i] && r[j] == kd[j]);
                    } else if i < kd.len() {
                        assert(r[i] == kd[i]);
                        assert(kd.contains(kd[i]));
                    } else if j < kd.len() {
                        assert(r[j] == kd[j]);
                        assert(kd.contains(kd[j]));
                    }
                }
            }
        }
    }
}

/// A key is listed among the pending keys with a prefix exactly when the
/// prefix followed by it is a pending key with a value.
pub proof fn lemma_pending_with_prefix(keys: Seq<Seq<u8>>, vals: Seq<Option<Seq<u8>>>, prefix: Seq<u8>)
    requires
        keys.len() == vals.len(),
    ensures
        forall|x: Seq<u8>|
            #[trigger] pending_with_prefix(keys, vals, prefix).contains(x) <==> exists|i: int|
                0 <= i < keys.len() && vals[i] is Some && #[trigger] keys[i] == prefix + x,
        keys.no_duplicates() ==> pending_with_prefix(keys, vals, prefix).no_duplicates(),
    decreases keys.len(),
{
    if keys.len() > 0 {
        let dk = keys.drop_last();
        let dv = vals.drop_last();
        lemma_pending_with_prefix(dk, dv, prefix);
        let rd = pending_with_prefix(dk, dv, prefix);
        let r = pending_with_prefix(keys, vals, prefix);
        let n = keys.len() - 1;
        let last = keys.last();
        let adds = vals.last() is Some && is_prefix(prefix, last);
        if adds {
            lemma_prefix_split(prefix, last);
        }
        assert forall|x: Seq<u8>| #[trigger] r.contains(x) <==> exists|i: int|
            0 <= i < keys.len() && vals[i] is Some && #[trigger] keys[i] == prefix + x by {
            if r.contains(x) {
                let t = choose|t: int| 0 <= t < r.len() && r[t] == x;
                if t < rd.len() {
                    assert(rd[t] == x);
                    assert(rd.contains(x));
                    let i = choose|i: int| 0 <= i < dk.len() && dv[i] is Some && #[trigger] dk[i] == prefix + x;
                    assert(keys[i] == dk[i] && vals[i] == dv[i]);
                } else {
                    assert(adds);
                    assert(x == last.subrange(prefix.len() as int, last.len() as int));
                    assert(keys[n] == prefix + x);
                }
            }
            if exists|i: int| 0 <= i < keys.len() && vals[i] is Some && #[trigger] keys[i] == prefix + x {
                let i = choose|i: int| 0 <= i < keys.len() && vals[i] is Some && #[trigger] keys[i] == prefix + x;
                if i < n {
                    assert(dk[i] == keys[i] && dv[i] == vals[i]);
                    assert(rd.contains(x));
                    let t = choose|t: int| 0 <= t < rd.len() && rd[t] == x;
                    assert(r[t] == x);
                } else {
                    lemma_prefix_concat(prefix, x, x);
                    assert(is_prefix(prefix, last));
                    lemma_prefix_concat(prefix, x, last.subrange(prefix.len() as int, last.len() as int));
                    assert(r[r.len() - 1] == x);
                }
            }
        }
        if keys.no_duplicates() {
            assert(dk.no_duplicates()) by {
                assert forall|i: int, j: int| 0 <= i < dk.len() && 0 <= j < dk.len() && i != j implies dk[i] != dk[j] by {
                    assert(keys[i] == dk[i] && keys[j] == dk[j]);
                }
            }
            if adds {
                let y = last.subrange(prefix.len() as int, last.len() as int);
                assert(!rd.contains(y)) by {
                    if rd.contains(y) {
                        let i = choose|i: int| 0 <= i < dk.len() && dv[i] is Some && #[trigger] dk[i] == prefix + y;
                        assert(keys[i] == keys[n]);
                    }
                }
                assert forall|i: int, j: int| 0 <= i < r.len() && 0 <= j < r.len() && i != j implies r[i] != r[j] by {
                    if i < rd.len() && j < rd.len() {
                        assert(r[i] == rd[i] && r[j] == rd[j]);
                    } else if i < rd.len() {
                        assert(r[i] == rd[i]);
                        assert(rd.contains(rd[i]));
                    } else if j < rd.len() {
                        assert(r[j] == rd[j]);
                        assert(rd.contains(rd[j]));
                    }
                }
            }
        }
    }
}

/// The pending entries with a value whose keys start with `prefix`, in
/// order, with `prefix` taken off.
pub open spec fn pending_entries_with_prefix(
    keys: Seq<Seq<u8>>,
    vals: Seq<Option<Seq<u8>>>,
    prefix: Seq<u8>,
) -> Seq<(Seq<u8>, Seq<u8>)>
    decreases keys.len(),
{
    if keys.len() == 0 {
        Seq::empty()
    } else {
        let rest = pending_entries_with_prefix(keys.drop_last(), vals.drop_last(), prefix);
        if vals.last() is Some && is_prefix(prefix, keys.last()) {
            rest.push((keys.last().subrange(prefix.len() as int, keys.last().len() as int), vals.last()->0))
        } else {
            rest
        }
    }
}

/// The entries of `m` in the order of `keys`.
pub open spec fn pairs_of(keys: Seq<Seq<u8>>, m: Map<Seq<u8>, Seq<u8>>) -> Seq<(Seq<u8>, Seq<u8>)> {
    Seq::new(keys.len(), |i: int| (keys[i], m[keys[i]]))
}

/// Each key of `keys` followed by its value in `m`, all concatenated.
pub open spec fn entries_bytes(keys: Seq<Seq<u8>>, m: Map<Seq<u8>, Seq<u8>>) -> Seq<u8>
    decreases keys.len(),
{
    if keys.len() == 0 {
        Seq::empty()
    } else {
        entries_bytes(keys.drop_last(), m) + keys.last() + m[keys.last()]
    }
}

/// What is hashed for a view with contents `m`: its entries in increasing
/// order of key, then their number in BCS (a 32-bit integer).
pub open spec fn hash_input(m: Map<Seq<u8>, Seq<u8>>) -> Seq<u8> {
    entries_bytes(key_order(m), m) + le_bytes(key_order(m).len(), 4)
}

/// `f` returned `Ok(())` on a vector holding `key`.
pub open spec fn index_call_ok<E, F: Fn(Vec<u8>) -> Result<(), E>>(f: F, key: Seq<u8>) -> bool {
    exists|v: Vec<u8>| v@ == key && #[trigger] f.ensures((v,), Ok::<(), E>(()))
}

/// `f` returned the error `e` on a vector holding `key`.
pub open spec fn index_call_err<E, F: Fn(Vec<u8>) -> Result<(), E>>(f: F, key: Seq<u8>, e: E) -> bool {
    exists|v: Vec<u8>| v@ == key && #[trigger] f.ensures((v,), Err::<(), E>(e))
}

/// `f` returned `Ok(())` on vectors holding `key` and `value`.
pub open spec fn entry_call_ok<E, F: Fn(Vec<u8>, Vec<u8>) -> Result<(), E>>(
    f: F,
    key: Seq<u8>,
    value: Seq<u8>,
) -> bool {
    exists|v: Vec<u8>, w: Vec<u8>| v@ == key && w@ == value && #[trigger] f.ensures((v, w), Ok::<(), E>(()))
}

/// `f` returned the error `e` on vectors holding `key` and `value`.
pub open spec fn entry_call_err<E, F: Fn(Vec<u8>, Vec<u8>) -> Result<(), E>>(
    f: F,
    key: Seq<u8>,
    value: Seq<u8>,
    e: E,
) -> bool {
    exists|v: Vec<u8>, w: Vec<u8>| v@ == key && w@ == value && #[trigger] f.ensures((v, w), Err::<(), E>(e))
}

impl View for KeyValueStoreView {
    type V = Map<Seq<u8>, Seq<u8>>;

    /// The key-value contents that the view shows.
    closed spec fn view(&self) -> Map<Seq<u8>, Seq<u8>> {
        Map::new(
            |k: Seq<u8>| self.get_spec(k) is Some,
            |k: Seq<u8>| self.get_spec(k)->0,
        )
    }
}

impl KeyValueStoreView {
    /// The context that the view reads and writes.
    pub closed spec fn ctx(&self) -> MemoryContext {
        self.context
    }

    /// Whether everything stored before was dropped.
    pub closed spec fn cleared(&self) -> bool {
        self.was_cleared
    }

    /// The changes not yet flushed, `None` standing for a removal.
    pub closed spec fn pending(&self) -> Map<Seq<u8>, Option<Seq<u8>>> {
        self.updates.map()
    }

    pub closed spec fn wf(&self) -> bool {
        self.context.wf() && self.updates.wf()
    }

    /// What the view holds under `k`.
    pub open spec fn get_spec(&self, k: Seq<u8>) -> Option<Seq<u8>> {
        view_get(self.pending(), self.cleared(), self.ctx().contents(), self.ctx().base(), k)
    }

    /// What the view holds under the raw key `k`, read without the base key.
    pub open spec fn raw_get_spec(&self, k: Seq<u8>) -> Option<Seq<u8>> {
        view_get(self.pending(), self.cleared(), self.ctx().contents(), Seq::empty(), k)
    }

    /// The contents of the view are what `get_spec` reads: the pending
    /// value of a changed key, nothing after a clear, else the stored value
    /// under the base key.
    pub proof fn lemma_view(&self)
        ensures
            forall|k: Seq<u8>| #[trigger] self@.contains_key(k) <==> self.get_spec(k) is Some,
            forall|k: Seq<u8>| self.get_spec(k) is Some ==> #[trigger] self@[k] == self.get_spec(k)->0,
    {
    }

    /// A view over `context` with no changes.
    pub fn new(context: MemoryContext) -> (r: Self)
        requires
            context.wf(),
        ensures
            r.wf(),
            r.ctx() == context,
            !r.cleared(),
            r.pending() == Map::<Seq<u8>, Option<Seq<u8>>>::empty(),
            r@ == context.stripped(),
    {
        let r = KeyValueStoreView { context, was_cleared: false, updates: ByteMap::new() };
        assert(r@ =~= context.stripped());
        r
    }

    /// Loads the view from its context; nothing is read before it is needed.
    pub fn load(context: MemoryContext) -> (r: Self)
        requires
            context.wf(),
        ensures
            r.wf(),
            r.ctx() == context,
            !r.cleared(),
            r.pending() == Map::<Seq<u8>, Option<Seq<u8>>>::empty(),
            r@ == context.stripped(),
    {
        Self::new(context)
    }

    /// The context of the view.
    pub fn context(&self) -> (r: &MemoryContext)
        ensures
            *r == self.ctx(),
    {
        &self.context
    }

    /// Drops the changes not yet flushed.
    pub fn rollback(&mut self)
        requires
            old(self).wf(),
        ensures
            final(self).wf(),
            final(self).ctx() == old(self).ctx(),
            !final(self).cleared(),
            final(self).pending() == Map::<Seq<u8>, Option<Seq<u8>>>::empty(),
            final(self)@ == old(self).ctx().stripped(),
    {
        self.was_cleared = false;
        self.updates.clear();
        assert(self@ =~= self.ctx().stripped());
    }

    /// Empties the view; the stored values are dropped at the next flush.
    pub fn clear(&mut self)
        requires
            old(self).wf(),
        ensures
            final(self).wf(),
            final(self).ctx() == old(self).ctx(),
            final(self).cleared(),
            final(self).pending() == Map::<Seq<u8>, Option<Seq<u8>>>::empty(),
            final(self)@ == Map::<Seq<u8>, Seq<u8>>::empty(),
    {
        self.was_cleared = true;
        self.updates.clear();
        assert(self@ =~= Map::<Seq<u8>, Seq<u8>>::empty());
    }

    /// Sets `value` under `index`.
    pub fn insert(&mut self, index: Vec<u8>, value: Vec<u8>)
        requires
            old(self).wf(),
        ensures
            final(self).wf(),
            final(self).ctx() == old(self).ctx(),
            final(self).cleared() == old(self).cleared(),
            final(self).pending() == old(self).pending().insert(index@, Some(value@)),
            final(self)@ == old(self)@.insert(index@, value@),
    {
        let ghost k = index@;
        let ghost v = value@;
        let some = Some(value);
        assert(some.deep_view() =~= Some(v));
        self.updates.insert(index, some);
        assert(self@ =~= old(self)@.insert(k, v));
    }

    /// Removes the value under `index`.
    pub fn remove(&mut self, index: Vec<u8>)
        requires
            old(self).wf(),
        ensures
            final(self).wf(),
            final(self).ctx() == old(self).ctx(),
            final(self).cleared() == old(self).cleared(),
            final(self).pending() == if old(self).cleared() {
                old(self).pending().remove(index@)
            } else {
                old(self).pending().insert(index@, None)
            },
            final(self)@ == old(self)@.remove(index@),
    {
        let ghost k = index@;
        if self.was_cleared {
            self.updates.remove(index.as_slice());
        } else {
            self.updates.insert(index, None);
        }
        assert(self@ =~= old(self)@.remove(k));
    }

    /// The entries of the view in increasing order of key: the stored entries
    /// under the base key merged with the pending changes.
    #[verifier::spinoff_prover]
    fn ordered_entries(&self) -> (r: Vec<(Vec<u8>, Vec<u8>)>)
        requires
            self.wf(),
        ensures
            strictly_sorted(entry_keys(r@)),
            forall|k: Seq<u8>| #[trigger] entry_keys(r@).contains(k) <==> self@.contains_key(k),
            forall|t: int| 0 <= t < r@.len() ==> #[trigger] self@[r@[t].0@] == r@[t].1@,
            entry_keys(r@) == key_order(self@),
    {
        let base = self.context.base_key();
        let stored: Vec<(Vec<u8>, Vec<u8>)> = if self.was_cleared {
            Vec::new()
        } else {
            self.context.find_stripped_key_values_by_prefix(base.as_slice())
        };
        let ghost ss = entry_keys(stored@);
        let ghost us = self.updates.keys();
        let ghost uv = self.updates.vals();
        let n = stored.len();
        let m = self.updates.len();
        let mut out: Vec<(Vec<u8>, Vec<u8>)> = Vec::new();
        let mut i: usize = 0;
        let mut j: usize = 0;
        proof {
            self.updates.lemma_map_facts();
            self.lemma_view();
            if self.was_cleared {
                assert(ss =~= Seq::<Seq<u8>>::empty());
            }
        }
        while i < n || j < m
            invariant
                self.wf(),
                n == ss.len(),
                ss == entry_keys(stored@),
                m == us.len(),
                us == self.updates.keys(),
                uv == self.updates.vals(),
                base@ == self.ctx().base(),
                i <= n,
                j <= m,
                strictly_sorted(ss),
                strictly_sorted(us),
                us.len() == uv.len(),
                self.cleared() ==> n == 0,
                forall|k: Seq<u8>|
                    #[trigger] ss.contains(k) <==> (!self.cleared() && self.ctx().contents().contains_key(
                        base@ + k,
                    )),
                forall|t: int|
                    0 <= t < n ==> #[trigger] self.ctx().contents()[base@ + stored@[t].0@]
                        == stored@[t].1@,
                forall|b: int|
                    0 <= b < m ==> #[trigger] self.pending().contains_key(us[b]) && self.pending()[us[b]]
                        == uv[b],
                forall|k: Seq<u8>| #[trigger] self.pending().contains_key(k) <==> us.contains(k),
                forall|k: Seq<u8>| #[trigger] self@.contains_key(k) <==> self.get_spec(k) is Some,
                forall|k: Seq<u8>| self.get_spec(k) is Some ==> #[trigger] self@[k] == self.get_spec(k)->0,
                strictly_sorted(entry_keys(out@)),
                forall|t: int|
                    0 <= t < out@.len() ==> #[trigger] self@.contains_key(out@[t].0@) && self@[out@[t].0@]
                        == out@[t].1@,
                forall|a: int|
                    0 <= a < i && #[trigger] self@.contains_key(ss[a]) ==> entry_keys(out@).contains(ss[a]),
                forall|b: int|
                    0 <= b < j && #[trigger] self@.contains_key(us[b]) ==> entry_keys(out@).contains(us[b]),
                forall|t: int, a: int|
                    0 <= t < out@.len() && i <= a < n ==> lex_lt(#[trigger] entry_keys(out@)[t], #[trigger] ss[a]),
                forall|t: int, b: int|
                    0 <= t < out@.len() && j <= b < m ==> lex_lt(#[trigger] entry_keys(out@)[t], #[trigger] us[b]),
                forall|a: int, b: int| 0 <= a < i && j <= b < m ==> lex_lt(#[trigger] ss[a], #[trigger] us[b]),
                forall|a: int, b: int| 0 <= b < j && i <= a < n ==> lex_lt(#[trigger] us[b], #[trigger] ss[a]),
            decreases (n - i) + (m - j),
        {
            let mut take_stored = i < n;
            let mut take_update = j < m;
            if i < n && j < m {
                let c = compare_bytes(stored[i].0.as_slice(), self.updates.key_at(j).as_slice());
                take_stored = c <= 0;
                take_update = c >= 0;
            }
            let ghost old_out = out@;
            if take_update {
                let ghost y = us[j as int];
                proof {
                    assert(self.pending().contains_key(y));
                    assert(self.get_spec(y) == uv[j as int]);
                }
                match self.updates.value_at(j) {
                    Some(v) => {
                        let k = copy_bytes(self.updates.key_at(j).as_slice());
                        let val = copy_bytes(v.as_slice());
                        proof {
                            assert(v.deep_view() =~= v@);
                            if old_out.len() > 0 {
                                assert(lex_lt(entry_keys(old_out)[old_out.len() - 1], us[j as int]));
                            }
                            lemma_sorted_push(entry_keys(old_out), y);
                        }
                        proof {
                            assert(uv[j as int] == Some(v.deep_view()));
                            assert(self.get_spec(y) == Some(val@));
                            assert(self@.contains_key(y) && self@[y] == val@);
                        }
                        out.push((k, val));
                        proof {
                            assert(out@[old_out.len() as int].0@ == y);
                            assert(forall|t: int| 0 <= t < old_out.len() ==> out@[t] == old_out[t]);
                            assert forall|t: int| 0 <= t < out@.len() implies #[trigger] self@.contains_key(out@[t].0@) && self@[out@[t].0@]
                                == out@[t].1@ by {
                                if t < old_out.len() {
                                    assert(out@[t] == old_out[t]);
                                    assert(self@.contains_key(old_out[t].0@));
                                }
                            }
                            assert(entry_keys(out@) =~= entry_keys(old_out).push(y));
                            assert(entry_keys(out@)[old_out.len() as int] == y);
                        }
                    },
                    None => {
                        assert(out@ == old_out);
                        assert forall|t: int| 0 <= t < out@.len() implies #[trigger] self@.contains_key(out@[t].0@) && self@[out@[t].0@]
                                == out@[t].1@ by {
                            assert(out@[t] == old_out[t]);
                        }
                    },
                }
                assert(forall|t: int| 0 <= t < out@.len() ==> #[trigger] self@.contains_key(out@[t].0@) && self@[out@[t].0@]
                        == out@[t].1@);
                proof {
                    assert forall|t: int| 0 <= t < old_out.len() implies #[trigger] entry_keys(out@)[t]
                        == entry_keys(old_out)[t] by {}
                    assert forall|t: int, a: int|
                        0 <= t < out@.len() && i + (if take_stored { 1int } else { 0int }) <= a < n implies lex_lt(
                        #[trigger] entry_keys(out@)[t],
                        #[trigger] ss[a],
                    ) by {
                        if t == old_out.len() {
                            if take_stored {
                                assert(ss[i as int] == y);
                                assert(lex_lt(ss[i as int], ss[a]));
                            } else {
                                assert(lex_lt(us[j as int], ss[i as int]));
                                if a > i {
                                    assert(lex_lt(ss[i as int], ss[a]));
                                    lemma_lex_transitive(y, ss[i as int], ss[a]);
                                }
                            }
                        } else {
                            assert(entry_keys(out@)[t] == entry_keys(old_out)[t]);
                        }
                    }
                    assert forall|t: int, b: int| 0 <= t < out@.len() && j + 1 <= b < m implies lex_lt(
                        #[trigger] entry_keys(out@)[t],
                        #[trigger] us[b],
                    ) by {
                        if t == old_out.len() {
                            assert(lex_lt(us[j as int], us[b]));
                        } else {
                            assert(entry_keys(out@)[t] == entry_keys(old_out)[t]);
                        }
                    }
                    assert forall|a: int|
                        0 <= a < i + (if take_stored { 1int } else { 0int }) && #[trigger] self@.contains_key(ss[a])
                        implies entry_keys(out@).contains(ss[a]) by {
                        if a == i {
                            assert(ss[a] == y);
                            assert(entry_keys(out@)[old_out.len() as int] == y);
                        } else {
                            assert(entry_keys(old_out).contains(ss[a]));
                            let t = choose|t: int| 0 <= t < old_out.len() && entry_keys(old_out)[t] == ss[a];
                            assert(entry_keys(out@)[t] == ss[a]);
                        }
                    }
                    assert forall|b: int| 0 <= b < j + 1 && #[trigger] self@.contains_key(us[b]) implies entry_keys(
                        out@,
                    ).contains(us[b]) by {
                        if b == j {
                            assert(entry_keys(out@)[old_out.len() as int] == y);
                        } else {
                            assert(entry_keys(old_out).contains(us[b]));
                            let t = choose|t: int| 0 <= t < old_out.len() && entry_keys(old_out)[t] == us[b];
                            assert(entry_keys(out@)[t] == us[b]);
                        }
                    }
                    assert forall|a: int, b: int|
                        0 <= a < i + (if take_stored { 1int } else { 0int }) && j + 1 <= b < m implies lex_lt(
                        #[trigger] ss[a],
                        #[trigger] us[b],
                    ) by {
                        if a == i {
                            assert(ss[a] == y);
                            assert(lex_lt(us[j as int], us[b]));
                        }
                    }
                    assert forall|a: int, b: int|
                        0 <= b < j + 1 && i + (if take_stored { 1int } else { 0int }) <= a < n implies lex_lt(
                        #[trigger] us[b],
                        #[trigger] ss[a],
                    ) by {
                        if b == j {
                            if take_stored {
                                assert(ss[i as int] == y);
                                assert(lex_lt(ss[i as int], ss[a]));
                            } else {
                                assert(lex_lt(us[j as int], ss[i as int]));
                                if a > i {
                                    assert(lex_lt(ss[i as int], ss[a]));
                                    lemma_lex_transitive(y, ss[i as int], ss[a]);
                                }
                            }
                        }
                    }
                }
                assert(forall|t: int| 0 <= t < out@.len() ==> #[trigger] self@.contains_key(out@[t].0@) && self@[out@[t].0@]
                        == out@[t].1@);
                if take_stored {
                    i += 1;
                }
                j += 1;
            } else {
                let ghost x = ss[i as int];
                let k = copy_bytes(stored[i].0.as_slice());
                let val = copy_bytes(stored[i].1.as_slice());
                proof {
                    assert(ss.contains(x));
                    assert forall|b: int| 0 <= b < m implies us[b] != x by {
                        if b < j {
                            assert(lex_lt(us[b], ss[i as int]));
                            lemma_lex_irreflexive(x);
                        } else {
                            assert(lex_lt(ss[i as int], us[j as int]));
                            if b > j {
                                assert(lex_lt(us[j as int], us[b]));
                                lemma_lex_transitive(x, us[j as int], us[b]);
                            }
                            lemma_lex_irreflexive(x);
                        }
                    }
                    assert(!self.pending().contains_key(x));
                    assert(self.get_spec(x) == Some(stored@[i as int].1@));
                    if old_out.len() > 0 {
                        assert(lex_lt(entry_keys(old_out)[old_out.len() - 1], ss[i as int]));
                    }
                    lemma_sorted_push(entry_keys(old_out), x);
                }
                proof {
                    assert(self@.contains_key(x) && self@[x] == val@);
                }
                out.push((k, val));
                proof {
                    assert(out@[old_out.len() as int].0@ == x);
                    assert(forall|t: int| 0 <= t < old_out.len() ==> out@[t] == old_out[t]);
                    assert forall|t: int| 0 <= t < out@.len() implies #[trigger] self@.contains_key(out@[t].0@) && self@[out@[t].0@]
                        == out@[t].1@ by {
                        if t < old_out.len() {
                            assert(out@[t] == old_out[t]);
                            assert(self@.contains_key(old_out[t].0@));
                        }
                    }
                    assert(entry_keys(out@) =~= entry_keys(old_out).push(x));
                    assert(entry_keys(out@)[old_out.len() as int] == x);
                    assert forall|t: int| 0 <= t < old_out.len() implies #[trigger] entry_keys(out@)[t]
                        == entry_keys(old_out)[t] by {}
                    assert forall|t: int, a: int| 0 <= t < out@.len() && i + 1 <= a < n implies lex_lt(
                        #[trigger] entry_keys(out@)[t],
                        #[trigger] ss[a],
                    ) by {
                        if t == old_out.len() {
                            assert(lex_lt(ss[i as int], ss[a]));
                        } else {
                            assert(entry_keys(out@)[t] == entry_keys(old_out)[t]);
                        }
                    }
                    assert forall|t: int, b: int| 0 <= t < out@.len() && j <= b < m implies lex_lt(
                        #[trigger] entry_keys(out@)[t],
                        #[trigger] us[b],
                    ) by {
                        if t == old_out.len() {
                            assert(lex_lt(ss[i as int], us[j as int]));
                            if b > j {
                                assert(lex_lt(us[j as int], us[b]));
                                lemma_lex_transitive(x, us[j as int], us[b]);
                            }
                        } else {
                            assert(entry_keys(out@)[t] == entry_keys(old_out)[t]);
                        }
                    }
                    assert forall|a: int| 0 <= a < i + 1 && #[trigger] self@.contains_key(ss[a]) implies entry_keys(
                        out@,
                    ).contains(ss[a]) by {
                        if a == i {
                        } else {
                            assert(entry_keys(old_out).contains(ss[a]));
                            let t = choose|t: int| 0 <= t < old_out.len() && entry_keys(old_out)[t] == ss[a];
                            assert(entry_keys(out@)[t] == ss[a]);
                        }
                    }
                    assert forall|b: int| 0 <= b < j && #[trigger] self@.contains_key(us[b]) implies entry_keys(
                        out@,
                    ).contains(us[b]) by {
                        assert(entry_keys(old_out).contains(us[b]));
                        let t = choose|t: int| 0 <= t < old_out.len() && entry_keys(old_out)[t] == us[b];
                        assert(entry_keys(out@)[t] == us[b]);
                    }
                    assert forall|a: int, b: int| 0 <= a < i + 1 && j <= b < m implies lex_lt(
                        #[trigger] ss[a],
                        #[trigger] us[b],
                    ) by {
                        if a == i {
                            assert(lex_lt(ss[i as int], us[j as int]));
                            if b > j {
                                assert(lex_lt(us[j as int], us[b]));
                                lemma_lex_transitive(x, us[j as int], us[b]);
                            }
                        }
                    }
                    assert forall|a: int, b: int| 0 <= b < j && i + 1 <= a < n implies lex_lt(
                        #[trigger] us[b],
                        #[trigger] ss[a],
                    ) by {
                        assert(lex_lt(us[b], ss[i as int]));
                        assert(lex_lt(ss[i as int], ss[a]));
                        lemma_lex_transitive(us[b], ss[i as int], ss[a]);
                    }
                }
                i += 1;
            }
        }
        proof {
            assert forall|k: Seq<u8>| #[trigger] entry_keys(out@).contains(k) <==> self@.contains_key(k) by {
                if self@.contains_key(k) {
                    if self.pending().contains_key(k) {
                        let b = choose|b: int| 0 <= b < m && us[b] == k;
                        assert(self@.contains_key(us[b]));
                    } else {
                        assert(ss.contains(k));
                        let a = choose|a: int| 0 <= a < n && ss[a] == k;
                        assert(self@.contains_key(ss[a]));
                    }
                }
                if entry_keys(out@).contains(k) {
                    let t = choose|t: int| 0 <= t < out@.len() && entry_keys(out@)[t] == k;
                    assert(self@.contains_key(out@[t].0@));
                }
            }
            lemma_key_order(self@, entry_keys(out@));
        }
        out
    }

    /// The indices of the view in increasing order.
    pub fn indices(&self) -> (r: Vec<Vec<u8>>)
        requires
            self.wf(),
        ensures
            byte_seqs(r@) == key_order(self@),
            strictly_sorted(byte_seqs(r@)),
            forall|k: Seq<u8>| #[trigger] byte_seqs(r@).contains(k) <==> self@.contains_key(k),
    {
        let entries = self.ordered_entries();
        let mut r: Vec<Vec<u8>> = Vec::new();
        let mut i: usize = 0;
        while i < entries.len()
            invariant
                i <= entries@.len(),
                r@.len() == i,
                forall|t: int| 0 <= t < i ==> #[trigger] r@[t]@ == entries@[t].0@,
            decreases entries@.len() - i,
        {
            r.push(copy_bytes(entries[i].0.as_slice()));
            i += 1;
        }
        assert(byte_seqs(r@) =~= entry_keys(entries@));
        r
    }

    /// Calls `f` on each index of the view in increasing order, and stops at
    /// the first error that `f` returns.
    pub fn for_each_index<E, F: Fn(Vec<u8>) -> Result<(), E>>(&self, f: F) -> (r: Result<(), E>)
        requires
            self.wf(),
            forall|v: Vec<u8>| #[trigger] f.requires((v,)),
        ensures
            match r {
                Ok(()) => forall|i: int|
                    0 <= i < key_order(self@).len() ==> #[trigger] index_call_ok(f, key_order(self@)[i]),
                Err(e) => exists|i: int|
                    0 <= i < key_order(self@).len() && #[trigger] index_call_err(f, key_order(self@)[i], e)
                        && forall|j: int| 0 <= j < i ==> #[trigger] index_call_ok(f, key_order(self@)[j]),
            },
    {
        let entries = self.ordered_entries();
        let ghost order = key_order(self@);
        let mut i: usize = 0;
        while i < entries.len()
            invariant
                order == key_order(self@),
                order == entry_keys(entries@),
                i <= entries@.len(),
                forall|v: Vec<u8>| #[trigger] f.requires((v,)),
                forall|j: int| 0 <= j < i ==> #[trigger] index_call_ok(f, order[j]),
            decreases entries@.len() - i,
        {
            let arg = copy_bytes(entries[i].0.as_slice());
            let ghost a = arg;
            let res = f(arg);
            match res {
                Ok(u) => {
                    assert(res == Ok::<(), E>(()));
                    assert(f.ensures((a,), Ok::<(), E>(())));
                    assert(index_call_ok(f, order[i as int])) by {
                        assert(a@ == order[i as int]);
                    }
                },
                Err(e) => {
                    assert(index_call_err(f, order[i as int], e)) by {
                        assert(a@ == order[i as int]);
                    }
                    return Err(e);
                },
            }
            i += 1;
        }
        Ok(())
    }

    /// Calls `f` on each index of the view and its value, in increasing order
    /// of index, and stops at the first error that `f` returns.
    pub fn for_each_index_value<E, F: Fn(Vec<u8>, Vec<u8>) -> Result<(), E>>(&self, f: F) -> (r: Result<(), E>)
        requires
            self.wf(),
            forall|v: Vec<u8>, w: Vec<u8>| #[trigger] f.requires((v, w)),
        ensures
            match r {
                Ok(()) => forall|i: int|
                    0 <= i < key_order(self@).len() ==> #[trigger] entry_call_ok(
                        f,
                        key_order(self@)[i],
                        self@[key_order(self@)[i]],
                    ),
                Err(e) => exists|i: int|
                    0 <= i < key_order(self@).len() && #[trigger] entry_call_err(
                        f,
                        key_order(self@)[i],
                        self@[key_order(self@)[i]],
                        e,
                    ) && forall|j: int|
                        0 <= j < i ==> #[trigger] entry_call_ok(f, key_order(self@)[j], self@[key_order(self@)[j]]),
            },
    {
        let entries = self.ordered_entries();
        let ghost order = key_order(self@);
        let ghost m = self@;
        let mut i: usize = 0;
        while i < entries.len()
            invariant
                m == self@,
                order == key_order(m),
                order == entry_keys(entries@),
                forall|t: int| 0 <= t < entries@.len() ==> #[trigger] m[entries@[t].0@] == entries@[t].1@,
                i <= entries@.len(),
                forall|v: Vec<u8>, w: Vec<u8>| #[trigger] f.requires((v, w)),
                forall|j: int| 0 <= j < i ==> #[trigger] entry_call_ok(f, order[j], m[order[j]]),
            decreases entries@.len() - i,
        {
            let key = copy_bytes(entries[i].0.as_slice());
            let value = copy_bytes(entries[i].1.as_slice());
            let ghost a = key;
            let ghost b = value;
            proof {
                assert(a@ == order[i as int]);
                assert(b@ == m[order[i as int]]);
            }
            let res = f(key, value);
            match res {
                Ok(u) => {
                    assert(res == Ok::<(), E>(()));
                    assert(f.ensures((a, b), Ok::<(), E>(())));
                    assert(entry_call_ok(f, order[i as int], m[order[i as int]]));
                },
                Err(e) => {
                    assert(entry_call_err(f, order[i as int], m[order[i as int]], e));
                    return Err(e);
                },
            }
            i += 1;
        }
        Ok(())
    }

    /// The keys of the pending changes, in increasing order.
    pub closed spec fn pending_keys(&self) -> Seq<Seq<u8>> {
        self.updates.keys()
    }

    /// The pending changes, in the order of `pending_keys`.
    pub closed spec fn pending_vals(&self) -> Seq<Option<Seq<u8>>> {
        self.updates.vals()
    }

    /// The pending changes listed by key in strictly increasing order:
    /// `pending_keys` and `pending_vals` hold exactly the changes of
    /// `pending()`.
    pub proof fn lemma_pending(&self)
        requires
            self.wf(),
        ensures
            strictly_sorted(self.pending_keys()),
            self.pending_keys().len() == self.pending_vals().len(),
            forall|i: int|
                0 <= i < self.pending_keys().len() ==> #[trigger] self.pending().contains_key(self.pending_keys()[i])
                    && self.pending()[self.pending_keys()[i]] == self.pending_vals()[i],
            forall|k: Seq<u8>| #[trigger] self.pending().contains_key(k) <==> self.pending_keys().contains(k),
    {
        self.updates.lemma_map_facts();
        assert forall|i: int| 0 <= i < self.pending_keys().len() implies #[trigger] self.pending().contains_key(
            self.pending_keys()[i],
        ) && self.pending()[self.pending_keys()[i]] == self.pending_vals()[i] by {
            assert(self.updates.map().contains_key(self.updates.keys()[i]));
        }
    }

    /// The writes that flushing the view appends to a batch.
    pub open spec fn flush_spec(&self) -> Seq<WriteOp> {
        flush_ops(self.ctx().base(), self.pending_keys(), self.pending_vals(), self.cleared())
    }

    /// Writing the writes of a flush to the store leaves under the base key
    /// what the view shows.
    pub proof fn lemma_flush_shows(&self)
        requires
            self.wf(),
        ensures
            strip_prefix(apply_ops(self.ctx().contents(), self.flush_spec()), self.ctx().base()) == self@,
    {
        let keys = self.updates.keys();
        let vals = self.updates.vals();
        let base = self.context.base();
        let cleared = self.was_cleared;
        self.updates.lemma_map_facts();
        self.lemma_view();
        lemma_flush_ops(self.context.contents(), base, keys, vals, cleared);
        let r = apply_ops(self.context.contents(), self.flush_spec());
        assert forall|k: Seq<u8>| #[trigger] strip_prefix(r, base).contains_key(k) <==> self@.contains_key(k) by {
            if keys.contains(k) {
                let i = choose|i: int| 0 <= i < keys.len() && keys[i] == k;
                assert(map_get(r, base + keys[i]) == vals[i]);
                assert(self.pending().contains_key(keys[i]));
            } else {
                assert(map_get(r, base + k) == (if cleared { None } else { map_get(self.context.contents(), base + k) }));
            }
        }
        assert forall|k: Seq<u8>| #[trigger] strip_prefix(r, base).contains_key(k) implies strip_prefix(r, base)[k] == self@[k] by {
            if keys.contains(k) {
                let i = choose|i: int| 0 <= i < keys.len() && keys[i] == k;
                assert(map_get(r, base + keys[i]) == vals[i]);
                assert(self.pending().contains_key(keys[i]));
            } else {
                assert(map_get(r, base + k) == (if cleared { None } else { map_get(self.context.contents(), base + k) }));
            }
        }
        assert(strip_prefix(r, base) =~= self@);
    }

    /// Appends the pending changes to `batch` and forgets them; writing the
    /// batch to the store leaves under the base key what the view showed.
    pub fn flush(&mut self, batch: &mut Batch)
        requires
            old(self).wf(),
        ensures
            final(self).wf(),
            final(self).ctx() == old(self).ctx(),
            !final(self).cleared(),
            final(self).pending() == Map::<Seq<u8>, Option<Seq<u8>>>::empty(),
            final(batch).ops() == old(batch).ops() + old(self).flush_spec(),
            strip_prefix(apply_ops(old(self).ctx().contents(), old(self).flush_spec()), old(self).ctx().base())
                == old(self)@,
    {
        let ghost keys = self.updates.keys();
        let ghost vals = self.updates.vals();
        let ghost base = self.context.base();
        let ghost start = batch.ops();
        let cleared = self.was_cleared;
        proof {
            self.lemma_flush_shows();
        }
        if cleared {
            batch.delete_key_prefix(self.context.base_key());
        }
        let n = self.updates.len();
        let mut i: usize = 0;
        proof {
            assert(keys.subrange(0, 0) =~= Seq::<Seq<u8>>::empty());
            assert(vals.subrange(0, 0) =~= Seq::<Option<Seq<u8>>>::empty());
            assert(batch.ops() =~= start + flush_ops(base, keys.subrange(0, 0), vals.subrange(0, 0), cleared));
        }
        while i < n
            invariant
                self.wf(),
                self.updates.keys() == keys,
                self.updates.vals() == vals,
                self.context.base() == base,
                self.context == old(self).context,
                n == keys.len(),
                keys.len() == vals.len(),
                i <= n,
                batch.ops() == start + flush_ops(base, keys.subrange(0, i as int), vals.subrange(0, i as int), cleared),
            decreases n - i,
        {
            assert(keys.subrange(0, i + 1).drop_last() =~= keys.subrange(0, i as int));
            assert(vals.subrange(0, i + 1).drop_last() =~= vals.subrange(0, i as int));
            let ghost before = batch.ops();
            let key = self.context.derive_key_bytes(self.updates.key_at(i).as_slice());
            match self.updates.value_at(i) {
                Some(v) => {
                    assert(v.deep_view() =~= v@);
                    batch.put_key_value_bytes(key, copy_bytes(v.as_slice()));
                },
                None => {
                    if !cleared {
                        batch.delete_key(key);
                    }
                },
            }
            assert(batch.ops() =~= start + flush_ops(base, keys.subrange(0, i + 1), vals.subrange(0, i + 1), cleared));
            i += 1;
        }
        assert(keys.subrange(0, n as int) =~= keys);
        assert(vals.subrange(0, n as int) =~= vals);
        self.was_cleared = false;
        self.updates.clear();
    }

    /// Appends the removal of everything stored under the base key.
    pub fn delete(self, batch: &mut Batch)
        ensures
            final(batch).ops() == old(batch).ops().push(WriteOp::DeletePrefix(self.ctx().base())),
    {
        batch.delete_key_prefix(self.context.base_key());
    }

    /// Writes `batch` to the store of the context.
    pub fn write_batch(&mut self, batch: Batch)
        requires
            old(self).wf(),
        ensures
            final(self).wf(),
            final(self).ctx().base() == old(self).ctx().base(),
            final(self).ctx().contents() == apply_ops(old(self).ctx().contents(), batch.ops()),
            final(self).cleared() == old(self).cleared(),
            final(self).pending() == old(self).pending(),
            final(self).pending_keys() == old(self).pending_keys(),
            final(self).pending_vals() == old(self).pending_vals(),
    {
        self.context.write_batch(batch);
    }

    /// The keys under `key_prefix` (read as raw keys, the base key put in
    /// front only for the stored ones), with the prefix taken off: first the
    /// stored keys that no pending change covers, then the pending keys that
    /// have a value.
    pub fn find_stripped_keys_by_prefix(&self, key_prefix: &[u8]) -> (r: Vec<Vec<u8>>)
        requires
            self.wf(),
        ensures
            byte_seqs(r@) == (if self.cleared() {
                Seq::<Seq<u8>>::empty()
            } else {
                kept_keys(
                    key_order(strip_prefix(self.ctx().contents(), self.ctx().base() + key_prefix@)),
                    key_prefix@,
                    self.pending(),
                )
            }) + pending_with_prefix(self.pending_keys(), self.pending_vals(), key_prefix@),
            forall|x: Seq<u8>| #[trigger] byte_seqs(r@).contains(x) <==> self@.contains_key(key_prefix@ + x),
            byte_seqs(r@).no_duplicates(),
    {
        let ghost p = key_prefix@;
        let mut keys: Vec<Vec<u8>> = Vec::new();
        let ghost first: Seq<Seq<u8>> = Seq::empty();
        let ghost mut stored_seq: Seq<Seq<u8>> = Seq::empty();
        if !self.was_cleared {
            let full = self.context.derive_key_bytes(key_prefix);
            let stored = self.context.find_stripped_keys_by_prefix(full.as_slice());
            let ghost sm = strip_prefix(self.context.contents(), full@);
            proof {
                assert forall|k: Seq<u8>| #[trigger] byte_seqs(stored@).contains(k) <==> sm.contains_key(k) by {}
                lemma_key_order(sm, byte_seqs(stored@));
                assert forall|x: Seq<u8>| #[trigger] byte_seqs(stored@).contains(x) <==> self.ctx().contents().contains_key(
                    self.ctx().base() + p + x,
                ) by {
                    assert(sm.contains_key(x) == self.context.contents().contains_key(full@ + x));
                }
            }
            let ghost ss = byte_seqs(stored@);
            let mut i: usize = 0;
            while i < stored.len()
                invariant
                    self.wf(),
                    !self.cleared(),
                    p == key_prefix@,
                    ss == byte_seqs(stored@),
                    i <= ss.len(),
                    strictly_sorted(ss),
                    forall|x: Seq<u8>| #[trigger] ss.contains(x) <==> self.ctx().contents().contains_key(
                        self.ctx().base() + p + x,
                    ),
                    byte_seqs(keys@) == kept_keys(ss.subrange(0, i as int), p, self.pending()),
                decreases ss.len() - i,
            {
                assert(ss.subrange(0, i + 1).drop_last() =~= ss.subrange(0, i as int));
                let key = concat_bytes(key_prefix, stored[i].as_slice());
                if !self.updates.contains_key(key.as_slice()) {
                    let ghost before = byte_seqs(keys@);
                    keys.push(copy_bytes(stored[i].as_slice()));
                    assert(byte_seqs(keys@) =~= before.push(ss[i as int]));
                }
                i += 1;
            }
            proof {
                assert(ss.subrange(0, ss.len() as int) =~= ss);
                first = byte_seqs(keys@);
                stored_seq = ss;
            }
        } else {
            assert(byte_seqs(keys@) =~= Seq::<Seq<u8>>::empty());
            assert(kept_keys(stored_seq, p, self.pending()) =~= Seq::<Seq<u8>>::empty());
        }
        let ghost uk = self.updates.keys();
        let ghost uv = self.updates.vals();
        let n = self.updates.len();
        let mut j: usize = 0;
        assert(byte_seqs(keys@) =~= first + pending_with_prefix(uk.subrange(0, 0), uv.subrange(0, 0), p));
        while j < n
            invariant
                self.wf(),
                p == key_prefix@,
                uk == self.updates.keys(),
                uv == self.updates.vals(),
                n == uk.len(),
                uk.len() == uv.len(),
                j <= n,
                byte_seqs(keys@) == first + pending_with_prefix(uk.subrange(0, j as int), uv.subrange(0, j as int), p),
                strictly_sorted(stored_seq),
                forall|x: Seq<u8>|
                    #[trigger] stored_seq.contains(x) <==> (!self.cleared() && self.ctx().contents().contains_key(
                        self.ctx().base() + p + x,
                    )),
                first == kept_keys(stored_seq, p, self.pending()),
            decreases n - j,
        {
            assert(uk.subrange(0, j + 1).drop_last() =~= uk.subrange(0, j as int));
            assert(uv.subrange(0, j + 1).drop_last() =~= uv.subrange(0, j as int));
            let key = self.updates.key_at(j);
            let has_value = self.updates.value_at(j).is_some();
            if has_value && starts_with(key.as_slice(), key_prefix) {
                let ghost before = byte_seqs(keys@);
                keys.push(suffix_bytes(key.as_slice(), key_prefix.len()));
                assert(byte_seqs(keys@) =~= before.push(uk[j as int].subrange(p.len() as int, uk[j as int].len() as int)));
            }
            assert(byte_seqs(keys@) =~= first + pending_with_prefix(uk.subrange(0, j + 1), uv.subrange(0, j + 1), p));
            j += 1;
        }
        assert(uk.subrange(0, n as int) =~= uk);
        assert(uv.subrange(0, n as int) =~= uv);
        proof {
            law_prefix_keys(*self, p, stored_seq);
        }
        keys
    }

    /// The entries under `key_prefix` (read as raw keys, the base key put in
    /// front only for the stored ones), with the prefix taken off their keys:
    /// first the stored entries that no pending change covers, then the
    /// pending entries that have a value.
    pub fn find_stripped_key_values_by_prefix(&self, key_prefix: &[u8]) -> (r: Vec<(Vec<u8>, Vec<u8>)>)
        requires
            self.wf(),
        ensures
            entry_views(r@) == (if self.cleared() {
                Seq::<(Seq<u8>, Seq<u8>)>::empty()
            } else {
                kept_entries(
                    pairs_of(
                        key_order(strip_prefix(self.ctx().contents(), self.ctx().base() + key_prefix@)),
                        strip_prefix(self.ctx().contents(), self.ctx().base() + key_prefix@),
                    ),
                    key_prefix@,
                    self.pending(),
                )
            }) + pending_entries_with_prefix(self.pending_keys(), self.pending_vals(), key_prefix@),
            forall|x: Seq<u8>| #[trigger] entry_keys(r@).contains(x) <==> self@.contains_key(key_prefix@ + x),
            entry_keys(r@).no_duplicates(),
            forall|t: int|
                0 <= t < r@.len() ==> #[trigger] self@[key_prefix@ + r@[t].0@] == r@[t].1@,
    {
        let ghost p = key_prefix@;
        let mut out: Vec<(Vec<u8>, Vec<u8>)> = Vec::new();
        let ghost first: Seq<(Seq<u8>, Seq<u8>)> = Seq::empty();
        let ghost mut stored_seq: Seq<(Seq<u8>, Seq<u8>)> = Seq::empty();
        if !self.was_cleared {
            let full = self.context.derive_key_bytes(key_prefix);
            let stored = self.context.find_stripped_key_values_by_prefix(full.as_slice());
            let ghost sm = strip_prefix(self.context.contents(), full@);
            proof {
                assert forall|k: Seq<u8>| #[trigger] entry_keys(stored@).contains(k) <==> sm.contains_key(k) by {}
                lemma_key_order(sm, entry_keys(stored@));
                assert(entry_views(stored@) =~= pairs_of(key_order(sm), sm)) by {
                    assert forall|t: int| 0 <= t < stored@.len() implies #[trigger] entry_views(stored@)[t]
                        == pairs_of(key_order(sm), sm)[t] by {
                        assert(self.context.contents()[full@ + stored@[t].0@] == stored@[t].1@);
                        assert(entry_keys(stored@)[t] == stored@[t].0@);
                    }
                }
                assert(fsts(entry_views(stored@)) =~= entry_keys(stored@));
                assert forall|x: Seq<u8>| #[trigger] fsts(entry_views(stored@)).contains(x) <==> self.ctx().contents().contains_key(
                    self.ctx().base() + p + x,
                ) by {
                    assert(sm.contains_key(x) == self.context.contents().contains_key(full@ + x));
                }
                assert forall|t: int| 0 <= t < entry_views(stored@).len() implies #[trigger] entry_views(stored@)[t].1
                    == self.ctx().contents()[self.ctx().base() + p + entry_views(stored@)[t].0] by {
                    assert(self.context.contents()[full@ + stored@[t].0@] == stored@[t].1@);
                }
            }
            let ghost ss = entry_views(stored@);
            let mut i: usize = 0;
            while i < stored.len()
                invariant
                    self.wf(),
                    !self.cleared(),
                    p == key_prefix@,
                    ss == entry_views(stored@),
                    i <= ss.len(),
                    strictly_sorted(fsts(ss)),
                    forall|x: Seq<u8>| #[trigger] fsts(ss).contains(x) <==> self.ctx().contents().contains_key(
                        self.ctx().base() + p + x,
                    ),
                    forall|t: int|
                        0 <= t < ss.len() ==> #[trigger] ss[t].1 == self.ctx().contents()[self.ctx().base() + p + ss[t].0],
                    entry_views(out@) == kept_entries(ss.subrange(0, i as int), p, self.pending()),
                decreases ss.len() - i,
            {
                assert(ss.subrange(0, i + 1).drop_last() =~= ss.subrange(0, i as int));
                let key = concat_bytes(key_prefix, stored[i].0.as_slice());
                if !self.updates.contains_key(key.as_slice()) {
                    let ghost before = entry_views(out@);
                    out.push((copy_bytes(stored[i].0.as_slice()), copy_bytes(stored[i].1.as_slice())));
                    assert(entry_views(out@) =~= before.push(ss[i as int]));
                }
                i += 1;
            }
            proof {
                assert(ss.subrange(0, ss.len() as int) =~= ss);
                first = entry_views(out@);
                stored_seq = ss;
            }
        } else {
            assert(entry_views(out@) =~= Seq::<(Seq<u8>, Seq<u8>)>::empty());
            assert(fsts(stored_seq) =~= Seq::<Seq<u8>>::empty());
        }
        let ghost uk = self.updates.keys();
        let ghost uv = self.updates.vals();
        let n = self.updates.len();
        let mut j: usize = 0;
        assert(entry_views(out@) =~= first + pending_entries_with_prefix(uk.subrange(0, 0), uv.subrange(0, 0), p));
        while j < n
            invariant
                self.wf(),
                p == key_prefix@,
                uk == self.updates.keys(),
                uv == self.updates.vals(),
                n == uk.len(),
                uk.len() == uv.len(),
                j <= n,
                entry_views(out@) == first + pending_entries_with_prefix(
                    uk.subrange(0, j as int),
                    uv.subrange(0, j as int),
                    p,
                ),
                strictly_sorted(fsts(stored_seq)),
                forall|x: Seq<u8>|
                    #[trigger] fsts(stored_seq).contains(x) <==> (!self.cleared() && self.ctx().contents().contains_key(
                        self.ctx().base() + p + x,
                    )),
                forall|t: int|
                    0 <= t < stored_seq.len() ==> #[trigger] stored_seq[t].1 == self.ctx().contents()[self.ctx().base() + p
                        + stored_seq[t].0],
                first == kept_entries(stored_seq, p, self.pending()),
            decreases n - j,
        {
            assert(uk.subrange(0, j + 1).drop_last() =~= uk.subrange(0, j as int));
            assert(uv.subrange(0, j + 1).drop_last() =~= uv.subrange(0, j as int));
            let key = self.updates.key_at(j);
            match self.updates.value_at(j) {
                Some(v) => {
                    if starts_with(key.as_slice(), key_prefix) {
                        let ghost before = entry_views(out@);
                        assert(v.deep_view() =~= v@);
                        out.push((suffix_bytes(key.as_slice(), key_prefix.len()), copy_bytes(v.as_slice())));
                        assert(entry_views(out@) =~= before.push(
                            (uk[j as int].subrange(p.len() as int, uk[j as int].len() as int), uv[j as int]->0),
                        ));
                    }
                },
                None => {},
            }
            assert(entry_views(out@) =~= first + pending_entries_with_prefix(
                uk.subrange(0, j + 1),
                uv.subrange(0, j + 1),
                p,
            ));
            j += 1;
        }
        assert(uk.subrange(0, n as int) =~= uk);
        assert(uv.subrange(0, n as int) =~= uv);
        proof {
            law_prefix_entries(*self, p, stored_seq);
            assert(entry_keys(out@) =~= fsts(entry_views(out@)));
            assert forall|t: int| 0 <= t < out@.len() implies #[trigger] self@[p + out@[t].0@] == out@[t].1@ by {
                assert(entry_views(out@)[t] == (out@[t].0@, out@[t].1@));
            }
        }
        out
    }

    /// The SHA-512 hash of the view: its entries in increasing order of key,
    /// each key followed by its value, then their number in BCS.
    pub fn hash(&mut self) -> (r: Vec<u8>)
        requires
            old(self).wf(),
            key_order(old(self)@).len() <= i32::MAX,
        ensures
            *final(self) == *old(self),
            r@ == sha512_spec(hash_input(old(self)@)),
            r@.len() == 64,
    {
        let entries = self.ordered_entries();
        let ghost m = self@;
        let ghost order = key_order(m);
        let mut data: Vec<u8> = Vec::new();
        let mut count: i32 = 0;
        let mut i: usize = 0;
        while i < entries.len()
            invariant
                order == entry_keys(entries@),
                forall|t: int| 0 <= t < entries@.len() ==> #[trigger] m[entries@[t].0@] == entries@[t].1@,
                order.len() <= i32::MAX,
                i <= entries@.len(),
                count == i,
                data@ == entries_bytes(order.subrange(0, i as int), m),
            decreases entries@.len() - i,
        {
            assert(order.subrange(0, i + 1).drop_last() =~= order.subrange(0, i as int));
            assert(order[i as int] == entries@[i as int].0@);
            let with_key = concat_bytes(data.as_slice(), entries[i].0.as_slice());
            data = concat_bytes(with_key.as_slice(), entries[i].1.as_slice());
            count += 1;
            i += 1;
        }
        assert(order.subrange(0, i as int) =~= order);
        let count_bytes = bcs_i32(count);
        let input = concat_bytes(data.as_slice(), count_bytes.as_slice());
        sha512_digest(input.as_slice())
    }

    /// The value under `index`, if any.
    pub fn get(&self, index: &[u8]) -> (r: Option<Vec<u8>>)
        requires
            self.wf(),
        ensures
            bytes_opt(r) == map_get(self@, index@),
    {
        match self.updates.get(index) {
            Some(update) => {
                return match update {
                    Some(v) => {
                        let c = copy_bytes(v.as_slice());
                        assert(v.deep_view() =~= v@);
                        Some(c)
                    },
                    None => None,
                };
            },
            None => {},
        }
        if self.was_cleared {
            return None;
        }
        let key = self.context.derive_key_bytes(index);
        self.context.read_key_bytes(key.as_slice())
    }

    /// The value under the raw key `key` (the base key is not put in front),
    /// as the view answers when it serves as a key-value store itself.
    pub fn read_key_bytes(&self, key: &[u8]) -> (r: Option<Vec<u8>>)
        requires
            self.wf(),
        ensures
            bytes_opt(r) == self.raw_get_spec(key@),
    {
        match self.updates.get(key) {
            Some(update) => {
                return match update {
                    Some(v) => {
                        let c = copy_bytes(v.as_slice());
                        assert(v.deep_view() =~= v@);
                        Some(c)
                    },
                    None => None,
                };
            },
            None => {},
        }
        if self.was_cleared {
            return None;
        }
        assert(Seq::<u8>::empty() + key@ =~= key@);
        self.context.read_key_bytes(key)
    }
}

/// Flushing a view into a batch and writing that batch to its store leaves
/// the view showing what it showed before: `after` is the view once both
/// are done.
pub proof fn law_flush_then_write(before: KeyValueStoreView, after: KeyValueStoreView)
    requires
        before.wf(),
        after.ctx().base() == before.ctx().base(),
        after.ctx().contents() == apply_ops(before.ctx().contents(), before.flush_spec()),
        !after.cleared(),
        after.pending() == Map::<Seq<u8>, Option<Seq<u8>>>::empty(),
    ensures
        after@ == before@,
{
    before.lemma_flush_shows();
    assert(after@ =~= before@);
}

/// A view with no pending change and no clear (as `new`, `load`,
/// `rollback` and `flush` leave it) appends nothing when flushed.
pub proof fn law_flush_without_changes(v: KeyValueStoreView)
    requires
        v.wf(),
        !v.cleared(),
        v.pending() == Map::<Seq<u8>, Option<Seq<u8>>>::empty(),
    ensures
        v.flush_spec() == Seq::<WriteOp>::empty(),
{
    v.lemma_pending();
    if v.pending_keys().len() > 0 {
        assert(v.pending().contains_key(v.pending_keys()[0]));
    }
}

/// With an empty base key, reading a raw key (`read_key_bytes`) reads what
/// `get` reads.
pub proof fn law_raw_read_agrees(v: KeyValueStoreView, k: Seq<u8>)
    requires
        v.ctx().base() == Seq::<u8>::empty(),
    ensures
        v.raw_get_spec(k) == v.get_spec(k),
{
    assert(Seq::<u8>::empty() + k =~= k);
    assert(v.ctx().base() + k =~= k);
}

/// Views that show the same contents hash the same.
pub proof fn law_hash_by_contents(a: KeyValueStoreView, b: KeyValueStoreView)
    requires
        a@ == b@,
    ensures
        hash_input(a@) == hash_input(b@),
{
}

/// What a concatenation holds, and when it holds nothing twice.
proof fn lemma_concat_keys(a: Seq<Seq<u8>>, b: Seq<Seq<u8>>)
    ensures
        forall|x: Seq<u8>| #[trigger] (a + b).contains(x) <==> a.contains(x) || b.contains(x),
        a.no_duplicates() && b.no_duplicates() && (forall|x: Seq<u8>| a.contains(x) ==> !b.contains(x)) ==> (a
            + b).no_duplicates(),
{
    let c = a + b;
    assert forall|x: Seq<u8>| #[trigger] c.contains(x) <==> a.contains(x) || b.contains(x) by {
        if c.contains(x) {
            let i = choose|i: int| 0 <= i < c.len() && c[i] == x;
            if i < a.len() {
                assert(a[i] == x);
            } else {
                assert(b[i - a.len()] == x);
            }
        }
        if a.contains(x) {
            let i = choose|i: int| 0 <= i < a.len() && a[i] == x;
            assert(c[i] == x);
        }
        if b.contains(x) {
            let i = choose|i: int| 0 <= i < b.len() && b[i] == x;
            assert(c[i + a.len()] == x);
        }
    }
    if a.no_duplicates() && b.no_duplicates() && (forall|x: Seq<u8>| a.contains(x) ==> !b.contains(x)) {
        assert forall|i: int, j: int| 0 <= i < c.len() && 0 <= j < c.len() && i != j implies c[i] != c[j] by {
            if i < a.len() && j >= a.len() {
                assert(a.contains(c[i]) && b.contains(c[j]));
                assert(b[j - a.len()] == c[j]);
            } else if j < a.len() && i >= a.len() {
                assert(a.contains(c[j]) && b.contains(c[i]));
                assert(b[i - a.len()] == c[i]);
            }
        }
    }
}

/// A strictly sorted sequence holds nothing twice.
proof fn lemma_sorted_no_duplicates(s: Seq<Seq<u8>>)
    requires
        strictly_sorted(s),
    ensures
        s.no_duplicates(),
{
    assert forall|i: int, j: int| 0 <= i < s.len() && 0 <= j < s.len() && i != j implies s[i] != s[j] by {
        lemma_sorted_distinct(s, i, j);
    }
}

/// The keys that a prefix query lists (the stored keys under the base key
/// and the prefix that no pending change covers, then the pending keys with
/// a value under the prefix, the prefix taken off) are each listed once,
/// and a key is listed exactly when the view holds a value under the prefix
/// followed by it. `stored` is the sorted list of the stored keys under the
/// base key and the prefix (none after a clear).
pub proof fn law_prefix_keys(v: KeyValueStoreView, p: Seq<u8>, stored: Seq<Seq<u8>>)
    requires
        v.wf(),
        strictly_sorted(stored),
        forall|x: Seq<u8>|
            #[trigger] stored.contains(x) <==> (!v.cleared() && v.ctx().contents().contains_key(v.ctx().base() + p + x)),
    ensures
        forall|x: Seq<u8>|
            #[trigger] (kept_keys(stored, p, v.pending()) + pending_with_prefix(v.pending_keys(), v.pending_vals(), p)).contains(
                x,
            ) <==> v@.contains_key(p + x),
        (kept_keys(stored, p, v.pending()) + pending_with_prefix(v.pending_keys(), v.pending_vals(), p)).no_duplicates(),
{
    let kept = kept_keys(stored, p, v.pending());
    let pend = pending_with_prefix(v.pending_keys(), v.pending_vals(), p);
    v.lemma_pending();
    v.lemma_view();
    lemma_sorted_no_duplicates(stored);
    lemma_sorted_no_duplicates(v.pending_keys());
    lemma_kept_keys(stored, p, v.pending());
    lemma_pending_with_prefix(v.pending_keys(), v.pending_vals(), p);
    lemma_concat_keys(kept, pend);
    let keys = v.pending_keys();
    let vals = v.pending_vals();
    assert forall|x: Seq<u8>| pend.contains(x) implies v.pending().contains_key(p + x) by {
        {
            let i = choose|i: int| 0 <= i < keys.len() && vals[i] is Some && #[trigger] keys[i] == p + x;
            assert(v.pending().contains_key(keys[i]));
        }
    }
    assert forall|x: Seq<u8>| #[trigger] (kept + pend).contains(x) <==> v@.contains_key(p + x) by {
        assert(v.ctx().base() + (p + x) =~= v.ctx().base() + p + x);
        if v.pending().contains_key(p + x) {
            assert(keys.contains(p + x));
            let i = choose|i: int| 0 <= i < keys.len() && keys[i] == p + x;
            assert(v.pending()[keys[i]] == vals[i]);
            if v.pending()[p + x] is Some {
                assert(vals[i] is Some && keys[i] == p + x);
                assert(pend.contains(x));
            }
        }
    }
}

/// The keys of a sequence of entries.
pub open spec fn fsts(s: Seq<(Seq<u8>, Seq<u8>)>) -> Seq<Seq<u8>> {
    Seq::new(s.len(), |i: int| s[i].0)
}

/// The kept entries are the stored entries whose keys are kept.
proof fn lemma_kept_entries(s: Seq<(Seq<u8>, Seq<u8>)>, p: Seq<u8>, pending: Map<Seq<u8>, Option<Seq<u8>>>)
    ensures
        fsts(kept_entries(s, p, pending)) == kept_keys(fsts(s), p, pending),
        forall|t: int|
            0 <= t < kept_entries(s, p, pending).len() ==> s.contains(#[trigger] kept_entries(s, p, pending)[t])
                && !pending.contains_key(p + kept_entries(s, p, pending)[t].0),
    decreases s.len(),
{
    if s.len() > 0 {
        let d = s.drop_last();
        lemma_kept_entries(d, p, pending);
        assert(fsts(d) =~= fsts(s).drop_last());
        let kd = kept_entries(d, p, pending);
        let r = kept_entries(s, p, pending);
        assert(fsts(r) =~= kept_keys(fsts(s), p, pending));
        assert forall|t: int| 0 <= t < r.len() implies s.contains(#[trigger] r[t]) && !pending.contains_key(p + r[t].0) by {
            if t < kd.len() {
                assert(r[t] == kd[t]);
                let i = choose|i: int| 0 <= i < d.len() && d[i] == kd[t];
                assert(s[i] == d[i]);
            } else {
                assert(r[t] == s[s.len() - 1]);
            }
        }
    } else {
        assert(fsts(s) =~= Seq::<Seq<u8>>::empty());
        assert(fsts(kept_entries(s, p, pending)) =~= Seq::<Seq<u8>>::empty());
    }
}

/// The pending entries under a prefix are the pending keys under it with
/// their values.
proof fn lemma_pending_entries(keys: Seq<Seq<u8>>, vals: Seq<Option<Seq<u8>>>, p: Seq<u8>)
    requires
        keys.len() == vals.len(),
    ensures
        fsts(pending_entries_with_prefix(keys, vals, p)) == pending_with_prefix(keys, vals, p),
        forall|t: int|
            0 <= t < pending_entries_with_prefix(keys, vals, p).len() ==> exists|i: int|
                0 <= i < keys.len() && vals[i] == Some(
                    (#[trigger] pending_entries_with_prefix(keys, vals, p)[t]).1,
                ) && keys[i] == p + pending_entries_with_prefix(keys, vals, p)[t].0,
    decreases keys.len(),
{
    if keys.len() > 0 {
        let dk = keys.drop_last();
        let dv = vals.drop_last();
        lemma_pending_entries(dk, dv, p);
        let rd = pending_entries_with_prefix(dk, dv, p);
        let r = pending_entries_with_prefix(keys, vals, p);
        assert(fsts(r) =~= pending_with_prefix(keys, vals, p));
        let n = keys.len() - 1;
        assert forall|t: int| 0 <= t < r.len() implies exists|i: int|
            0 <= i < keys.len() && vals[i] == Some((#[trigger] r[t]).1) && keys[i] == p + r[t].0 by {
            if t < rd.len() {
                assert(r[t] == rd[t]);
                let i = choose|i: int| 0 <= i < dk.len() && dv[i] == Some(rd[t].1) && dk[i] == p + rd[t].0;
                assert(keys[i] == dk[i] && vals[i] == dv[i]);
            } else {
                lemma_prefix_split(p, keys[n]);
                assert(keys[n] == p + r[t].0);
            }
        }
    } else {
        assert(fsts(pending_entries_with_prefix(keys, vals, p)) =~= Seq::<Seq<u8>>::empty());
    }
}

/// The entries that a prefix query lists (the stored entries under the base
/// key and the prefix that no pending change covers, then the pending
/// entries with a value under the prefix, the prefix taken off their keys)
/// have distinct keys; a key is listed exactly when the view holds a value
/// under the prefix followed by it, and it is listed with that value.
/// `stored` lists the stored entries under the base key and the prefix
/// (none after a clear), in increasing order of key.
pub proof fn law_prefix_entries(v: KeyValueStoreView, p: Seq<u8>, stored: Seq<(Seq<u8>, Seq<u8>)>)
    requires
        v.wf(),
        strictly_sorted(fsts(stored)),
        forall|x: Seq<u8>|
            #[trigger] fsts(stored).contains(x) <==> (!v.cleared() && v.ctx().contents().contains_key(
                v.ctx().base() + p + x,
            )),
        forall|t: int| 0 <= t < stored.len() ==> #[trigger] stored[t].1 == v.ctx().contents()[v.ctx().base() + p + stored[t].0],
    ensures
        forall|x: Seq<u8>|
            #[trigger] fsts(
                kept_entries(stored, p, v.pending()) + pending_entries_with_prefix(v.pending_keys(), v.pending_vals(), p),
            ).contains(x) <==> v@.contains_key(p + x),
        fsts(
            kept_entries(stored, p, v.pending()) + pending_entries_with_prefix(v.pending_keys(), v.pending_vals(), p),
        ).no_duplicates(),
        forall|t: int|
            0 <= t < (kept_entries(stored, p, v.pending()) + pending_entries_with_prefix(
                v.pending_keys(),
                v.pending_vals(),
                p,
            )).len() ==> v@.contains_key(
                p + (#[trigger] (kept_entries(stored, p, v.pending()) + pending_entries_with_prefix(
                    v.pending_keys(),
                    v.pending_vals(),
                    p,
                ))[t]).0,
            ) && v@[p + (kept_entries(stored, p, v.pending()) + pending_entries_with_prefix(
                v.pending_keys(),
                v.pending_vals(),
                p,
            ))[t].0] == (kept_entries(stored, p, v.pending()) + pending_entries_with_prefix(
                v.pending_keys(),
                v.pending_vals(),
                p,
            ))[t].1,
{
    let ke = kept_entries(stored, p, v.pending());
    let pe = pending_entries_with_prefix(v.pending_keys(), v.pending_vals(), p);
    let all = ke + pe;
    v.lemma_pending();
    v.lemma_view();
    lemma_kept_entries(stored, p, v.pending());
    lemma_pending_entries(v.pending_keys(), v.pending_vals(), p);
    law_prefix_keys(v, p, fsts(stored));
    assert(fsts(all) =~= fsts(ke) + fsts(pe));
    let keys = v.pending_keys();
    let vals = v.pending_vals();
    assert forall|t: int| 0 <= t < all.len() implies v@.contains_key(p + (#[trigger] all[t]).0) && v@[p + all[t].0]
        == all[t].1 by {
        let e = all[t];
        assert(v.ctx().base() + (p + e.0) =~= v.ctx().base() + p + e.0);
        if t < ke.len() {
            assert(e == ke[t]);
            let i = choose|i: int| 0 <= i < stored.len() && stored[i] == ke[t];
            assert(fsts(stored)[i] == e.0);
            assert(fsts(stored).contains(e.0));
            assert(stored[i].1 == v.ctx().contents()[v.ctx().base() + p + stored[i].0]);
        } else {
            assert(e == pe[t - ke.len()]);
            let i = choose|i: int| 0 <= i < keys.len() && vals[i] == Some((#[trigger] pe[t - ke.len()]).1) && keys[i] == p
                + pe[t - ke.len()].0;
            assert(v.pending().contains_key(keys[i]) && v.pending()[keys[i]] == vals[i]);
        }
    }
}

} // verus!
