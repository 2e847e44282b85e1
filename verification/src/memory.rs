//! Write batches and the in-memory store that a view reads and writes.
use crate::byte_map::ByteMap;
use crate::bytes::{
    concat_bytes, copy_bytes, is_prefix, lemma_lex_common_prefix, lemma_lex_transitive, lex_lt, outside_prefix,
    starts_with, strictly_sorted, suffix_bytes,
};
use vstd::prelude::*;

verus! {

/// One write of a batch.
pub enum WriteOperation {
    /// Removes the value under a key.
    Delete { key: Vec<u8> },
    /// Removes every value whose key starts with the prefix.
    DeletePrefix { key_prefix: Vec<u8> },
    /// Sets the value under a key.
    Put { key: Vec<u8>, value: Vec<u8> },
}

/// What a write operation does, over byte sequences.
pub enum WriteOp {
    Delete(Seq<u8>),
    DeletePrefix(Seq<u8>),
    Put(Seq<u8>, Seq<u8>),
}

impl WriteOperation {
    pub open spec fn op(&self) -> WriteOp {
        match self {
            WriteOperation::Delete { key } => WriteOp::Delete(key@),
            WriteOperation::DeletePrefix { key_prefix } => WriteOp::DeletePrefix(key_prefix@),
            WriteOperation::Put { key, value } => WriteOp::Put(key@, value@),
        }
    }
}

/// A sequence of writes, applied in order.
pub struct Batch {
    pub operations: Vec<WriteOperation>,
}

/// The effect of one write on a store.
pub open spec fn apply_op(m: Map<Seq<u8>, Seq<u8>>, op: WriteOp) -> Map<Seq<u8>, Seq<u8>> {
    match op {
        WriteOp::Delete(k) => m.remove(k),
        WriteOp::DeletePrefix(p) => m.restrict(outside_prefix(p)),
        WriteOp::Put(k, v) => m.insert(k, v),
    }
}

/// The effect of a sequence of writes on a store, first to last.
pub open spec fn apply_ops(m: Map<Seq<u8>, Seq<u8>>, ops: Seq<WriteOp>) -> Map<Seq<u8>, Seq<u8>>
    decreases ops.len(),
{
    if ops.len() == 0 {
        m
    } else {
        apply_op(apply_ops(m, ops.drop_last()), ops.last())
    }
}

/// The keys of a sequence of entries, as byte sequences.
pub open spec fn entry_keys(s: Seq<(Vec<u8>, Vec<u8>)>) -> Seq<Seq<u8>> {
    Seq::new(s.len(), |i: int| s[i].0@)
}

/// A sequence of entries, as pairs of byte sequences.
pub open spec fn entry_views(s: Seq<(Vec<u8>, Vec<u8>)>) -> Seq<(Seq<u8>, Seq<u8>)> {
    Seq::new(s.len(), |i: int| (s[i].0@, s[i].1@))
}

/// A sequence of byte vectors, as byte sequences.
pub open spec fn byte_seqs(s: Seq<Vec<u8>>) -> Seq<Seq<u8>> {
    Seq::new(s.len(), |i: int| s[i]@)
}

/// The value under `k`, if any.
pub open spec fn map_get(m: Map<Seq<u8>, Seq<u8>>, k: Seq<u8>) -> Option<Seq<u8>> {
    if m.contains_key(k) {
        Some(m[k])
    } else {
        None
    }
}

/// An optional byte vector, as an optional byte sequence.
pub open spec fn bytes_opt(o: Option<Vec<u8>>) -> Option<Seq<u8>> {
    match o {
        Some(v) => Some(v@),
        None => None,
    }
}

/// The entries of `m` under `prefix`, with `prefix` taken off their keys.
pub open spec fn strip_prefix(m: Map<Seq<u8>, Seq<u8>>, prefix: Seq<u8>) -> Map<Seq<u8>, Seq<u8>> {
    Map::new(|k: Seq<u8>| m.contains_key(prefix + k), |k: Seq<u8>| m[prefix + k])
}

/// Applying `a` then `b` is applying their concatenation.
pub proof fn lemma_apply_ops_append(m: Map<Seq<u8>, Seq<u8>>, a: Seq<WriteOp>, b: Seq<WriteOp>)
    ensures
        apply_ops(m, a + b) == apply_ops(apply_ops(m, a), b),
    decreases b.len(),
{
    if b.len() == 0 {
        assert(a + b =~= a);
    } else {
        assert((a + b).drop_last() =~= a + b.drop_last());
        lemma_apply_ops_append(m, a, b.drop_last());
    }
}

/// A key made of a prefix and a rest splits back into them.
pub proof fn lemma_prefix_split(p: Seq<u8>, k: Seq<u8>)
    requires
        is_prefix(p, k),
    ensures
        k == p + k.subrange(p.len() as int, k.len() as int),
{
    assert(k =~= p + k.subrange(p.len() as int, k.len() as int));
}

/// `p + a` has the prefix `p`, and `p + a == p + b` only if `a == b`.
pub proof fn lemma_prefix_concat(p: Seq<u8>, a: Seq<u8>, b: Seq<u8>)
    ensures
        is_prefix(p, p + a),
        (p + a == p + b) ==> a == b,
{
    assert((p + a).subrange(0, p.len() as int) =~= p);
    if p + a == p + b {
        assert(a =~= (p + a).subrange(p.len() as int, (p + a).len() as int));
        assert(b =~= (p + b).subrange(p.len() as int, (p + b).len() as int));
    }
}

/// Pushing a key greater than the last keeps a sequence strictly sorted.
pub proof fn lemma_sorted_push(s: Seq<Seq<u8>>, x: Seq<u8>)
    requires
        strictly_sorted(s),
        s.len() == 0 || lex_lt(s.last(), x),
    ensures
        strictly_sorted(s.push(x)),
{
    let t = s.push(x);
    assert forall|i: int, j: int| 0 <= i < j < t.len() implies lex_lt(#[trigger] t[i], #[trigger] t[j]) by {
        if j == s.len() {
            if i < s.len() - 1 {
                lemma_lex_transitive(s[i], s.last(), x);
            }
        } else {
            assert(t[i] == s[i] && t[j] == s[j]);
        }
    }
}

/// The keys of `s` that start with `p`, in order, with `p` taken off.
pub open spec fn strip_filter(s: Seq<Seq<u8>>, p: Seq<u8>) -> Seq<Seq<u8>>
    decreases s.len(),
{
    if s.len() == 0 {
        Seq::empty()
    } else {
        let r = strip_filter(s.drop_last(), p);
        if is_prefix(p, s.last()) {
            r.push(s.last().subrange(p.len() as int, s.last().len() as int))
        } else {
            r
        }
    }
}

/// What `strip_filter` holds, and that it keeps a sorted sequence sorted.
pub proof fn lemma_strip_filter(s: Seq<Seq<u8>>, p: Seq<u8>)
    ensures
        forall|k: Seq<u8>| #[trigger] strip_filter(s, p).contains(k) <==> s.contains(p + k),
        strictly_sorted(s) ==> strictly_sorted(strip_filter(s, p)),
    decreases s.len(),
{
    if s.len() > 0 {
        let d = s.drop_last();
        lemma_strip_filter(d, p);
        let r = strip_filter(d, p);
        assert forall|k: Seq<u8>| #[trigger] strip_filter(s, p).contains(k) <==> s.contains(p + k) by {
            if s.contains(p + k) {
                let j = choose|j: int| 0 <= j < s.len() && s[j] == p + k;
                if j < s.len() - 1 {
                    assert(d[j] == p + k);
                    assert(r.contains(k));
                    let t = choose|t: int| 0 <= t < r.len() && r[t] == k;
                    assert(strip_filter(s, p)[t] == k);
                } else {
                    lemma_prefix_concat(p, k, k);
                    lemma_prefix_split(p, s.last());
                    lemma_prefix_concat(p, k, s.last().subrange(p.len() as int, s.last().len() as int));
                    assert(strip_filter(s, p)[r.len() as int] == k);
                }
            }
            if strip_filter(s, p).contains(k) {
                let t = choose|t: int| 0 <= t < strip_filter(s, p).len() && strip_filter(s, p)[t] == k;
                if t < r.len() {
                    assert(r[t] == k);
                    assert(r.contains(k));
                    assert(d.contains(p + k));
                    let j = choose|j: int| 0 <= j < d.len() && d[j] == p + k;
                    assert(s[j] == p + k);
                } else {
                    lemma_prefix_split(p, s.last());
                    assert(s[s.len() - 1] == p + k);
                }
            }
        }
        if strictly_sorted(s) && is_prefix(p, s.last()) {
            assert(strictly_sorted(d)) by {
                assert forall|i: int, j: int| 0 <= i < j < d.len() implies lex_lt(#[trigger] d[i], #[trigger] d[j]) by {
                    assert(s[i] == d[i] && s[j] == d[j]);
                }
            }
            let x = s.last().subrange(p.len() as int, s.last().len() as int);
            if r.len() > 0 {
                assert(r.contains(r.last()));
                assert(d.contains(p + r.last()));
                let j = choose|j: int| 0 <= j < d.len() && d[j] == p + r.last();
                assert(lex_lt(s[j], s[s.len() - 1]));
                lemma_prefix_split(p, s.last());
                lemma_lex_common_prefix(p, r.last(), x);
            }
            lemma_sorted_push(r, x);
        } else if strictly_sorted(s) {
            assert(strictly_sorted(d)) by {
                assert forall|i: int, j: int| 0 <= i < j < d.len() implies lex_lt(#[trigger] d[i], #[trigger] d[j]) by {
                    assert(s[i] == d[i] && s[j] == d[j]);
                }
            }
        }
    }
}

impl Batch {
    /// The writes, in order.
    pub open spec fn ops(&self) -> Seq<WriteOp> {
        Seq::new(self.operations@.len(), |i: int| self.operations@[i].op())
    }

    /// An empty batch.
    pub fn new() -> (r: Batch)
        ensures
            r.ops() == Seq::<WriteOp>::empty(),
    {
        let r = Batch { operations: Vec::new() };
        assert(r.ops() =~= Seq::<WriteOp>::empty());
        r
    }

    /// Appends the removal of the value under `key`.
    pub fn delete_key(&mut self, key: Vec<u8>)
        ensures
            final(self).ops() == old(self).ops().push(WriteOp::Delete(key@)),
    {
        let ghost k = key@;
        self.operations.push(WriteOperation::Delete { key });
        assert(self.ops() =~= old(self).ops().push(WriteOp::Delete(k)));
    }

    /// Appends the removal of every value under `key_prefix`.
    pub fn delete_key_prefix(&mut self, key_prefix: Vec<u8>)
        ensures
            final(self).ops() == old(self).ops().push(WriteOp::DeletePrefix(key_prefix@)),
    {
        let ghost k = key_prefix@;
        self.operations.push(WriteOperation::DeletePrefix { key_prefix });
        assert(self.ops() =~= old(self).ops().push(WriteOp::DeletePrefix(k)));
    }

    /// Appends setting `value` under `key`.
    pub fn put_key_value_bytes(&mut self, key: Vec<u8>, value: Vec<u8>)
        ensures
            final(self).ops() == old(self).ops().push(WriteOp::Put(key@, value@)),
    {
        let ghost k = key@;
        let ghost v = value@;
        self.operations.push(WriteOperation::Put { key, value });
        assert(self.ops() =~= old(self).ops().push(WriteOp::Put(k, v)));
    }
}

/// A store held in memory together with the base key under which a view
/// keeps its values.
pub struct MemoryContext {
    base_key: Vec<u8>,
    store: ByteMap<Vec<u8>>,
}

impl MemoryContext {
    /// The base key of the view.
    pub closed spec fn base(&self) -> Seq<u8> {
        self.base_key@
    }

    /// Every key and value of the store.
    pub closed spec fn contents(&self) -> Map<Seq<u8>, Seq<u8>> {
        self.store.map()
    }

    pub closed spec fn wf(&self) -> bool {
        self.store.wf()
    }

    /// The stored values under the base key, with the base key taken off.
    pub open spec fn stripped(&self) -> Map<Seq<u8>, Seq<u8>> {
        strip_prefix(self.contents(), self.base())
    }

    /// An empty store with the given base key.
    pub fn new(base_key: Vec<u8>) -> (r: MemoryContext)
        ensures
            r.wf(),
            r.base() == base_key@,
            r.contents() == Map::<Seq<u8>, Seq<u8>>::empty(),
    {
        MemoryContext { base_key, store: ByteMap::new() }
    }

    /// The base key.
    pub fn base_key(&self) -> (r: Vec<u8>)
        ensures
            r@ == self.base(),
    {
        copy_bytes(self.base_key.as_slice())
    }

    /// The full key of `index`: the base key followed by `index`.
    pub fn derive_key_bytes(&self, index: &[u8]) -> (r: Vec<u8>)
        ensures
            r@ == self.base() + index@,
    {
        concat_bytes(self.base_key.as_slice(), index)
    }

    /// The value stored under the full key `key`.
    pub fn read_key_bytes(&self, key: &[u8]) -> (r: Option<Vec<u8>>)
        requires
            self.wf(),
        ensures
            bytes_opt(r) == map_get(self.contents(), key@),
    {
        match self.store.get(key) {
            Some(v) => Some(copy_bytes(v.as_slice())),
            None => None,
        }
    }

    /// The keys that start with `key_prefix`, with the prefix taken off, in
    /// increasing order.
    pub fn find_stripped_keys_by_prefix(&self, key_prefix: &[u8]) -> (r: Vec<Vec<u8>>)
        requires
            self.wf(),
        ensures
            strictly_sorted(byte_seqs(r@)),
            forall|k: Seq<u8>|
                byte_seqs(r@).contains(k) <==> #[trigger] self.contents().contains_key(
                    key_prefix@ + k,
                ),
    {
        let kv = self.find_stripped_key_values_by_prefix(key_prefix);
        let mut r: Vec<Vec<u8>> = Vec::new();
        let mut i: usize = 0;
        while i < kv.len()
            invariant
                i <= kv@.len(),
                r@.len() == i,
                forall|t: int| 0 <= t < i ==> #[trigger] r@[t]@ == kv@[t].0@,
            decreases kv@.len() - i,
        {
            r.push(copy_bytes(kv[i].0.as_slice()));
            i += 1;
        }
        assert(byte_seqs(r@) =~= entry_keys(kv@));
        r
    }

    /// The entries whose keys start with `key_prefix`, with the prefix taken
    /// off the keys, in increasing order of key.
    pub fn find_stripped_key_values_by_prefix(&self, key_prefix: &[u8]) -> (r: Vec<(Vec<u8>, Vec<u8>)>)
        requires
            self.wf(),
        ensures
            strictly_sorted(entry_keys(r@)),
            forall|k: Seq<u8>|
                entry_keys(r@).contains(k) <==> #[trigger] self.contents().contains_key(key_prefix@ + k),
            forall|t: int|
                0 <= t < r@.len() ==> #[trigger] self.contents()[key_prefix@ + r@[t].0@] == r@[t].1@,
    {
        let ghost p = key_prefix@;
        let ghost keys = self.store.keys();
        let ghost vals = self.store.vals();
        proof {
            self.store.lemma_map_facts();
        }
        let mut r: Vec<(Vec<u8>, Vec<u8>)> = Vec::new();
        let ghost mut srcs: Seq<int> = Seq::empty();
        let mut i: usize = 0;
        let n = self.store.len();
        while i < n
            invariant
                n == keys.len(),
                keys == self.store.keys(),
                vals == self.store.vals(),
                self.store.wf(),
                p == key_prefix@,
                i <= n,
                srcs.len() == r@.len(),
                forall|t: int|
                    0 <= t < srcs.len() ==> 0 <= #[trigger] srcs[t] < i && keys[srcs[t]] == p
                        + r@[t].0@ && vals[srcs[t]] == r@[t].1@,
                entry_keys(r@) == strip_filter(keys.subrange(0, i as int), p),
            decreases n - i,
        {
            let key = self.store.key_at(i);
            assert(keys.subrange(0, i + 1).drop_last() =~= keys.subrange(0, i as int));
            assert(keys.subrange(0, i + 1).last() == keys[i as int]);
            if starts_with(key.as_slice(), key_prefix) {
                let short = suffix_bytes(key.as_slice(), key_prefix.len());
                let value = copy_bytes(self.store.value_at(i).as_slice());
                proof {
                    lemma_prefix_split(p, keys[i as int]);
                }
                let ghost old_r = r@;
                r.push((short, value));
                proof {
                    srcs = srcs.push(i as int);
                    assert(entry_keys(r@) =~= entry_keys(old_r).push(short@));
                }
            }
            i += 1;
        }
        proof {
            assert(keys.subrange(0, n as int) =~= keys);
            lemma_strip_filter(keys, p);
            assert forall|k: Seq<u8>|
                entry_keys(r@).contains(k) <==> #[trigger] self.contents().contains_key(p + k) by {
                if self.contents().contains_key(p + k) {
                    assert(self.store.map().contains_key(p + k));
                }
            }
            assert forall|t: int| 0 <= t < r@.len() implies #[trigger] self.contents()[p
                + r@[t].0@] == r@[t].1@ by {
                assert(self.store.map().contains_key(keys[srcs[t]]));
            }
        }
        r
    }

    /// Applies the writes of `batch` to the store, in order.
    pub fn write_batch(&mut self, batch: Batch)
        requires
            old(self).wf(),
        ensures
            final(self).wf(),
            final(self).base() == old(self).base(),
            final(self).contents() == apply_ops(old(self).contents(), batch.ops()),
    {
        let ghost start = self.contents();
        let ghost ops = batch.ops();
        let mut i: usize = 0;
        while i < batch.operations.len()
            invariant
                self.wf(),
                self.base() == old(self).base(),
                start == old(self).contents(),
                ops == batch.ops(),
                i <= ops.len(),
                self.contents() == apply_ops(start, ops.subrange(0, i as int)),
            decreases ops.len() - i,
        {
            assert(ops.subrange(0, i + 1).drop_last() =~= ops.subrange(0, i as int));
            assert(ops.subrange(0, i + 1).last() == batch.operations@[i as int].op());
            match &batch.operations[i] {
                WriteOperation::Delete { key } => {
                    self.store.remove(key.as_slice());
                },
                WriteOperation::DeletePrefix { key_prefix } => {
                    self.store.remove_prefix(key_prefix.as_slice());
                },
                WriteOperation::Put { key, value } => {
                    let k = copy_bytes(key.as_slice());
                    let v = copy_bytes(value.as_slice());
                    assert(v.deep_view() =~= v@);
                    self.store.insert(k, v);
                },
            }
            i += 1;
        }
        assert(ops.subrange(0, i as int) =~= ops);
    }
}

} // verus!
