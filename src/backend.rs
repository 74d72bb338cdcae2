//! An in-memory backend: point operations, transactional batches with
//! expected-value preconditions, and content-addressed blobs.

use crate::order::{compare_bytes, lemma_lex_asymmetric, lemma_lex_irreflexive, lemma_lex_total, lemma_lex_transitive, lex_lt};
use crate::keys::{with_subspace, Key};
use crate::bitmap::{bitmap_clone, bitmap_insert, bitmap_new, bitmap_remove, bitmap_set};
use crate::Error;
use roaring::RoaringBitmap;
use std::ops::Range;
use vstd::prelude::*;

verus! {

/// One mutation or precondition of a transactional batch.
#[allow(inconsistent_fields)]
pub enum BatchOp {
    /// Store `value` under `key`.
    Put { key: Vec<u8>, value: Vec<u8> },
    /// Remove `key`.
    Clear { key: Vec<u8> },
    /// Require that `key` holds `value` (`None`: that it is absent) before
    /// the batch applies.
    AssertValue { key: Vec<u8>, value: Option<Vec<u8>> },
    /// Add `document_id` to the bitmap under `key`.
    SetBit { key: Vec<u8>, document_id: u32 },
    /// Remove `document_id` from the bitmap under `key`.
    ClearBit { key: Vec<u8>, document_id: u32 },
}

pub open spec fn opt_view(v: Option<Vec<u8>>) -> Option<Seq<u8>> {
    match v {
        Some(b) => Some(b@),
        None => None,
    }
}

/// What `key` holds in `m`.
pub open spec fn value_of(m: Map<Seq<u8>, Seq<u8>>, key: Seq<u8>) -> Option<Seq<u8>> {
    if m.contains_key(key) {
        Some(m[key])
    } else {
        None
    }
}

/// Every precondition of the batch holds in `m`.
pub open spec fn assertions_hold(ops: Seq<BatchOp>, m: Map<Seq<u8>, Seq<u8>>) -> bool {
    forall|i: int|
        0 <= i < ops.len() ==> match #[trigger] ops[i] {
            BatchOp::AssertValue { key, value } => value_of(m, key@) == opt_view(value),
            _ => true,
        }
}

pub open spec fn apply_op(op: BatchOp, m: Map<Seq<u8>, Seq<u8>>) -> Map<Seq<u8>, Seq<u8>> {
    match op {
        BatchOp::Put { key, value } => m.insert(key@, value@),
        BatchOp::Clear { key } => m.remove(key@),
        _ => m,
    }
}

/// The identifiers of the bitmap under `key`; a missing bitmap is empty.
pub open spec fn bits_of(bm: Map<Seq<u8>, Set<u32>>, key: Seq<u8>) -> Set<u32> {
    if bm.contains_key(key) {
        bm[key]
    } else {
        Set::empty()
    }
}

pub open spec fn apply_bit_op(op: BatchOp, bm: Map<Seq<u8>, Set<u32>>) -> Map<Seq<u8>, Set<u32>> {
    match op {
        BatchOp::SetBit { key, document_id } => bm.insert(key@, bits_of(bm, key@).insert(document_id)),
        BatchOp::ClearBit { key, document_id } => bm.insert(key@, bits_of(bm, key@).remove(document_id)),
        _ => bm,
    }
}

/// The bitmap changes of the first `n` operations, applied in order.
pub open spec fn apply_bit_ops(ops: Seq<BatchOp>, bm: Map<Seq<u8>, Set<u32>>, n: nat) -> Map<Seq<u8>, Set<u32>>
    decreases n,
{
    if n == 0 || n > ops.len() {
        bm
    } else {
        apply_bit_op(ops[n - 1], apply_bit_ops(ops, bm, (n - 1) as nat))
    }
}

/// The mutations of the first `n` operations, applied in order.
pub open spec fn apply_ops(ops: Seq<BatchOp>, m: Map<Seq<u8>, Seq<u8>>, n: nat) -> Map<Seq<u8>, Seq<u8>>
    decreases n,
{
    if n == 0 || n > ops.len() {
        m
    } else {
        apply_op(ops[n - 1], apply_ops(ops, m, (n - 1) as nat))
    }
}

/// The bytes `[start, end)` of a blob, both ends cut to its length.
pub open spec fn blob_slice(b: Seq<u8>, start: int, end: int) -> Seq<u8> {
    let s = if start < b.len() {
        start
    } else {
        b.len() as int
    };
    let e = if end < b.len() {
        end
    } else {
        b.len() as int
    };
    if e <= s {
        Seq::empty()
    } else {
        b.subrange(s, e)
    }
}

/// Large objects stored by key, with ranged reads.
pub trait BlobStore {
    /// The store's internal consistency.
    spec fn blob_store_wf(&self) -> bool;

    /// The stored blobs, by key.
    spec fn blobs(&self) -> Map<Seq<u8>, Seq<u8>>;

    fn get_blob(&self, key: &[u8], range: Range<u32>) -> (r: Result<Option<Vec<u8>>, Error>)
        requires
            self.blob_store_wf(),
        ensures
            r matches Ok(v) && opt_view(v) == (if self.blobs().contains_key(key@) {
                Some(blob_slice(self.blobs()[key@], range.start as int, range.end as int))
            } else {
                None
            }),
    ;

    fn put_blob(&mut self, key: &[u8], data: &[u8]) -> (r: Result<(), Error>)
        requires
            old(self).blob_store_wf(),
        ensures
            final(self).blob_store_wf(),
            r is Ok,
            final(self).blobs() == old(self).blobs().insert(key@, data@),
    ;

    fn delete_blob(&mut self, key: &[u8]) -> (r: Result<bool, Error>)
        requires
            old(self).blob_store_wf(),
        ensures
            final(self).blob_store_wf(),
            r == Ok::<bool, Error>(old(self).blobs().contains_key(key@)),
            final(self).blobs() == old(self).blobs().remove(key@),
    ;
}

/// `k` lies in the half-open range `[begin, end)`.
pub open spec fn in_range(k: Seq<u8>, begin: Seq<u8>, end: Seq<u8>) -> bool {
    !lex_lt(k, begin) && lex_lt(k, end)
}

/// What a scan returns: the keys of `m` in `[begin, end)` in the requested
/// direction, each with its value when `values` is set (else an empty value),
/// and only the first of them when `first` is set.
pub open spec fn is_scan_result(
    r: Seq<(Vec<u8>, Vec<u8>)>,
    m: Map<Seq<u8>, Seq<u8>>,
    begin: Seq<u8>,
    end: Seq<u8>,
    first: bool,
    ascending: bool,
    values: bool,
) -> bool {
    &&& forall|i: int|
        0 <= i < r.len() ==> {
            &&& in_range(#[trigger] r[i].0@, begin, end)
            &&& m.contains_key(r[i].0@)
            &&& r[i].1@ == (if values {
                m[r[i].0@]
            } else {
                Seq::empty()
            })
        }
    &&& forall|i: int, j: int|
        0 <= i < j < r.len() ==> if ascending {
            lex_lt(r[i].0@, r[j].0@)
        } else {
            lex_lt(r[j].0@, r[i].0@)
        }
    &&& !first ==> forall|k: Seq<u8>|
        m.contains_key(k) && in_range(k, begin, end) ==> exists|i: int|
            0 <= i < r.len() && #[trigger] r[i].0@ == k
    &&& first ==> r.len() <= 1
    &&& first && r.len() == 0 ==> forall|k: Seq<u8>| m.contains_key(k) ==> !in_range(k, begin, end)
    &&& first && r.len() == 1 ==> forall|k: Seq<u8>|
        m.contains_key(k) && in_range(k, begin, end) ==> if ascending {
            !lex_lt(k, r[0].0@)
        } else {
            !lex_lt(r[0].0@, k)
        }
}

/// The entry a scan visits at step `s` of `n`.
pub open spec fn scan_pos(n: int, s: int, ascending: bool) -> int {
    if ascending {
        s
    } else {
        n - 1 - s
    }
}

/// The bounds and options of a range scan.
pub struct IterateParams<T: Key> {
    pub begin: T,
    pub end: T,
    pub first: bool,
    pub ascending: bool,
    pub values: bool,
}

/// A key/value table whose entries hold distinct keys.
pub struct Table {
    entries: Vec<(Vec<u8>, Vec<u8>)>,
    contents: Ghost<Map<Seq<u8>, Seq<u8>>>,
}

fn bytes_eq(a: &[u8], b: &[u8]) -> (r: bool)
    ensures
        r == (a@ == b@),
{
    if a.len() != b.len() {
        return false;
    }
    let mut i: usize = 0;
    while i < a.len()
        invariant
            a@.len() == b@.len(),
            i <= a@.len(),
            forall|j: int| 0 <= j < i ==> a@[j] == b@[j],
        decreases a@.len() - i,
    {
        if a[i] != b[i] {
            return false;
        }
        i = i + 1;
    }
    assert(a@ =~= b@);
    true
}

fn copy_bytes(b: &[u8]) -> (r: Vec<u8>)
    ensures
        r@ == b@,
{
    let mut out: Vec<u8> = Vec::new();
    let mut i: usize = 0;
    while i < b.len()
        invariant
            i <= b@.len(),
            out@ == b@.subrange(0, i as int),
        decreases b@.len() - i,
    {
        out.push(b[i]);
        assert(b@.subrange(0, i + 1) =~= b@.subrange(0, i as int).push(b@[i as int]));
        i = i + 1;
    }
    assert(b@.subrange(0, b@.len() as int) =~= b@);
    out
}

impl View for Table {
    type V = Map<Seq<u8>, Seq<u8>>;

    closed spec fn view(&self) -> Map<Seq<u8>, Seq<u8>> {
        self.contents@
    }
}

impl Table {
    pub closed spec fn wf(&self) -> bool {
        &&& forall|i: int, j: int|
            0 <= i < j < self.entries@.len() ==> self.entries@[i].0@ != self.entries@[j].0@
        &&& forall|i: int, j: int|
            0 <= i < j < self.entries@.len() ==> lex_lt(self.entries@[i].0@, self.entries@[j].0@)
        &&& forall|i: int|
            0 <= i < self.entries@.len() ==> #[trigger] self.contents@.contains_key(self.entries@[i].0@)
                && self.contents@[self.entries@[i].0@] == self.entries@[i].1@
        &&& forall|k: Seq<u8>|
            #[trigger] self.contents@.contains_key(k) ==> exists|i: int|
                0 <= i < self.entries@.len() && #[trigger] self.entries@[i].0@ == k
    }

    pub fn new() -> (r: Table)
        ensures
            r.wf(),
            r@ == Map::<Seq<u8>, Seq<u8>>::empty(),
    {
        Table { entries: Vec::new(), contents: Ghost(Map::empty()) }
    }

    fn find(&self, key: &[u8]) -> (r: Option<usize>)
        requires
            self.wf(),
        ensures
            match r {
                Some(i) => i < self.entries@.len() && self.entries@[i as int].0@ == key@,
                None => !self@.contains_key(key@),
            },
    {
        let mut i: usize = 0;
        while i < self.entries.len()
            invariant
                self.wf(),
                i <= self.entries@.len(),
                forall|j: int| 0 <= j < i ==> self.entries@[j].0@ != key@,
            decreases self.entries@.len() - i,
        {
            if bytes_eq(self.entries[i].0.as_slice(), key) {
                return Some(i);
            }
            i = i + 1;
        }
        None
    }

    pub fn get(&self, key: &[u8]) -> (r: Option<Vec<u8>>)
        requires
            self.wf(),
        ensures
            opt_view(r) == value_of(self@, key@),
    {
        match self.find(key) {
            Some(i) => Some(copy_bytes(self.entries[i].1.as_slice())),
            None => None,
        }
    }

    pub fn delete(&mut self, key: &[u8]) -> (r: bool)
        requires
            old(self).wf(),
        ensures
            final(self).wf(),
            r == old(self)@.contains_key(key@),
            final(self)@ == old(self)@.remove(key@),
    {
        match self.find(key) {
            Some(i) => {
                let ghost old_entries = self.entries@;
                let ghost old_contents = self.contents@;
                self.entries.remove(i);
                self.contents = Ghost(self.contents@.remove(key@));
                assert forall|a: int, b: int| 0 <= a < b < self.entries@.len() implies self.entries@[a].0@
                    != self.entries@[b].0@ by {
                    let oa = if a < i { a } else { a + 1 };
                    let ob = if b < i { b } else { b + 1 };
                    assert(self.entries@[a] == old_entries[oa]);
                    assert(self.entries@[b] == old_entries[ob]);
                }
                assert forall|a: int, b: int| 0 <= a < b < self.entries@.len() implies lex_lt(self.entries@[a].0@,
                    self.entries@[b].0@) by {
                    let oa = if a < i { a } else { a + 1 };
                    let ob = if b < i { b } else { b + 1 };
                    assert(self.entries@[a] == old_entries[oa]);
                    assert(self.entries@[b] == old_entries[ob]);
                }
                assert forall|a: int| 0 <= a < self.entries@.len() implies #[trigger] self.contents@.contains_key(
                    self.entries@[a].0@) && self.contents@[self.entries@[a].0@] == self.entries@[a].1@ by {
                    let oa = if a < i { a } else { a + 1 };
                    assert(self.entries@[a] == old_entries[oa]);
                    assert(old_entries[oa].0@ != old_entries[i as int].0@);
                    assert(old_contents.contains_key(old_entries[oa].0@));
                    assert(old_contents[old_entries[oa].0@] == old_entries[oa].1@);
                }
                assert forall|k: Seq<u8>| #[trigger] self.contents@.contains_key(k) implies exists|j: int|
                    0 <= j < self.entries@.len() && #[trigger] self.entries@[j].0@ == k by {
                    let j = choose|j: int| 0 <= j < old_entries.len() && #[trigger] old_entries[j].0@ == k;
                    if j < i {
                        assert(self.entries@[j].0@ == k);
                    } else {
                        assert(self.entries@[j - 1].0@ == k);
                    }
                }
                true
            },
            None => {
                assert(self.contents@.remove(key@) =~= self.contents@);
                false
            },
        }
    }

    fn entry_out(&self, t: usize, values: bool) -> (r: (Vec<u8>, Vec<u8>))
        requires
            self.wf(),
            t < self.entries@.len(),
        ensures
            r.0@ == self.entries@[t as int].0@,
            self@.contains_key(r.0@),
            r.1@ == (if values {
                self@[r.0@]
            } else {
                Seq::empty()
            }),
    {
        let k = copy_bytes(self.entries[t].0.as_slice());
        let v = if values {
            copy_bytes(self.entries[t].1.as_slice())
        } else {
            Vec::new()
        };
        assert(self@.contains_key(self.entries@[t as int].0@));
        assert(v@ =~= (if values { self@[k@] } else { Seq::<u8>::empty() }));
        (k, v)
    }

    pub fn scan(&self, begin: &[u8], end: &[u8], first: bool, ascending: bool, values: bool) -> (r: Vec<
        (Vec<u8>, Vec<u8>),
    >)
        requires
            self.wf(),
        ensures
            is_scan_result(r@, self@, begin@, end@, first, ascending, values),
    {
        let n = self.entries.len();
        let ghost e = self.entries@;
        let mut out: Vec<(Vec<u8>, Vec<u8>)> = Vec::new();
        let ghost mut idx: Seq<int> = Seq::empty();
        let mut t: usize = 0;
        while t < n
            invariant
                self.wf(),
                e == self.entries@,
                n == e.len(),
                t <= n,
                out@.len() == idx.len(),
                first ==> out@.len() == 0,
                forall|j: int| 0 <= j < idx.len() ==> 0 <= #[trigger] idx[j] < t,
                forall|a: int, b: int| 0 <= a < b < idx.len() ==> idx[a] < idx[b],
                forall|j: int|
                    0 <= j < out@.len() ==> {
                        &&& (#[trigger] out@[j]).0@ == e[scan_pos(n as int, idx[j], ascending)].0@
                        &&& in_range(out@[j].0@, begin@, end@)
                        &&& self@.contains_key(out@[j].0@)
                        &&& out@[j].1@ == (if values {
                            self@[out@[j].0@]
                        } else {
                            Seq::empty()
                        })
                    },
                forall|s2: int|
                    0 <= s2 < t && in_range(e[#[trigger] scan_pos(n as int, s2, ascending)].0@, begin@, end@)
                        ==> exists|j: int| 0 <= j < idx.len() && #[trigger] idx[j] == s2,
            decreases n - t,
        {
            let pos = if ascending {
                t
            } else {
                n - 1 - t
            };
            let k = self.entries[pos].0.as_slice();
            assert(e[scan_pos(n as int, t as int, ascending)] == e[pos as int]);
            let ghost old_idx = idx;
            if compare_bytes(k, begin) >= 0 && compare_bytes(k, end) < 0 {
                let item = self.entry_out(pos, values);
                out.push(item);
                proof {
                    idx = idx.push(t as int);
                    assert(idx[idx.len() - 1] == t);
                    assert forall|j: int| 0 <= j < old_idx.len() implies idx[j] == old_idx[j] by {}
                }
                if first {
                    proof {
                        assert forall|k2: Seq<u8>| self@.contains_key(k2) && in_range(k2, begin@, end@) implies (if ascending {
                            !lex_lt(k2, out@[0].0@)
                        } else {
                            !lex_lt(out@[0].0@, k2)
                        }) by {
                            let s3 = choose|s3: int| 0 <= s3 < e.len() && #[trigger] e[s3].0@ == k2;
                            let s2 = if ascending { s3 } else { n - 1 - s3 };
                            assert(scan_pos(n as int, s2, ascending) == s3);
                            if s2 < t {
                                assert(in_range(e[scan_pos(n as int, s2, ascending)].0@, begin@, end@));
                                assert(old_idx.len() == 0);
                            } else if s2 > t {
                                if ascending {
                                    lemma_lex_asymmetric(e[pos as int].0@, k2);
                                } else {
                                    lemma_lex_asymmetric(k2, e[pos as int].0@);
                                }
                            } else {
                                lemma_lex_irreflexive(k2);
                            }
                        }
                    }
                    return out;
                }
            }
            t = t + 1;
        }
        proof {
            assert forall|i: int, j: int| 0 <= i < j < out@.len() implies (if ascending {
                lex_lt(out@[i].0@, out@[j].0@)
            } else {
                lex_lt(out@[j].0@, out@[i].0@)
            }) by {
                let pi = scan_pos(n as int, idx[i], ascending);
                let pj = scan_pos(n as int, idx[j], ascending);
                assert(idx[i] < idx[j]);
                if ascending {
                    assert(lex_lt(e[pi].0@, e[pj].0@));
                } else {
                    assert(lex_lt(e[pj].0@, e[pi].0@));
                }
            }
            assert forall|k2: Seq<u8>| self@.contains_key(k2) && in_range(k2, begin@, end@) implies exists|i: int|
                0 <= i < out@.len() && #[trigger] out@[i].0@ == k2 by {
                let s3 = choose|s3: int| 0 <= s3 < e.len() && #[trigger] e[s3].0@ == k2;
                let s2 = if ascending { s3 } else { n - 1 - s3 };
                assert(scan_pos(n as int, s2, ascending) == s3);
                assert(e[scan_pos(n as int, s2, ascending)] == e[s3]);
                let j = choose|j: int| 0 <= j < idx.len() && #[trigger] idx[j] == s2;
                assert(out@[j].0@ == k2);
            }
        }
        out
    }

    pub fn put(&mut self, key: &[u8], value: &[u8])
        requires
            old(self).wf(),
        ensures
            final(self).wf(),
            final(self)@ == old(self)@.insert(key@, value@),
    {
        self.delete(key);
        let ghost mid = self.entries@;
        let ghost mid_contents = self.contents@;
        assert forall|i: int| 0 <= i < mid.len() implies mid[i].0@ != key@ by {
            assert(mid_contents.contains_key(mid[i].0@));
        }
        let mut p: usize = 0;
        while p < self.entries.len() && compare_bytes(self.entries[p].0.as_slice(), key) < 0
            invariant
                self.wf(),
                self.entries@ == mid,
                p <= mid.len(),
                forall|t: int| 0 <= t < p ==> lex_lt(mid[t].0@, key@),
            decreases mid.len() - p,
        {
            p = p + 1;
        }
        proof {
            if p < mid.len() {
                lemma_lex_total(mid[p as int].0@, key@);
                assert forall|j: int| p <= j < mid.len() implies lex_lt(key@, mid[j].0@) by {
                    if j > p {
                        lemma_lex_transitive(key@, mid[p as int].0@, mid[j].0@);
                    }
                }
            }
        }
        let k = copy_bytes(key);
        let v = copy_bytes(value);
        self.entries.insert(p, (k, v));
        self.contents = Ghost(self.contents@.insert(key@, value@));
        let ghost e = self.entries@;
        assert forall|a: int| 0 <= a < e.len() implies (#[trigger] e[a]) == (if a < p {
            mid[a]
        } else if a == p {
            e[p as int]
        } else {
            mid[a - 1]
        }) by {}
        assert forall|a: int, b: int| 0 <= a < b < e.len() implies lex_lt(e[a].0@, e[b].0@) by {
            if b < p || a > p {
            } else if a == p {
                assert(e[b] == mid[b - 1]);
            } else if b == p {
                assert(e[a] == mid[a]);
            } else {
                assert(e[a] == mid[a] && e[b] == mid[b - 1]);
                lemma_lex_transitive(mid[a].0@, key@, mid[b - 1].0@);
            }
        }
        assert forall|a: int, b: int| 0 <= a < b < e.len() implies e[a].0@ != e[b].0@ by {
            lemma_lex_irreflexive(e[a].0@);
        }
        assert forall|k2: Seq<u8>| #[trigger] self.contents@.contains_key(k2) implies exists|j: int|
            0 <= j < self.entries@.len() && #[trigger] self.entries@[j].0@ == k2 by {
            if k2 == key@ {
                assert(self.entries@[p as int].0@ == k2);
            } else {
                let j = choose|j: int| 0 <= j < mid.len() && #[trigger] mid[j].0@ == k2;
                if j < p {
                    assert(self.entries@[j].0@ == k2);
                } else {
                    assert(self.entries@[j + 1].0@ == k2);
                }
            }
        }
        assert forall|i: int| 0 <= i < self.entries@.len() implies #[trigger] self.contents@.contains_key(self.entries@[i].0@)
            && self.contents@[self.entries@[i].0@] == self.entries@[i].1@ by {
            if i < p {
                assert(mid_contents.contains_key(mid[i].0@));
            } else if i > p {
                assert(mid_contents.contains_key(mid[i - 1].0@));
            }
        }
        assert(self.contents@ =~= old(self)@.insert(key@, value@));
    }
}

/// Bitmaps by key, each key held once.
pub struct BitmapTable {
    entries: Vec<(Vec<u8>, RoaringBitmap)>,
    contents: Ghost<Map<Seq<u8>, Set<u32>>>,
}

impl View for BitmapTable {
    type V = Map<Seq<u8>, Set<u32>>;

    closed spec fn view(&self) -> Map<Seq<u8>, Set<u32>> {
        self.contents@
    }
}

impl BitmapTable {
    pub closed spec fn wf(&self) -> bool {
        &&& forall|i: int, j: int|
            0 <= i < j < self.entries@.len() ==> self.entries@[i].0@ != self.entries@[j].0@
        &&& forall|i: int|
            0 <= i < self.entries@.len() ==> #[trigger] self.contents@.contains_key(self.entries@[i].0@)
                && self.contents@[self.entries@[i].0@] == bitmap_set(self.entries@[i].1)
        &&& forall|k: Seq<u8>|
            #[trigger] self.contents@.contains_key(k) ==> exists|i: int|
                0 <= i < self.entries@.len() && #[trigger] self.entries@[i].0@ == k
    }

    pub fn new() -> (r: BitmapTable)
        ensures
            r.wf(),
            r@ == Map::<Seq<u8>, Set<u32>>::empty(),
    {
        BitmapTable { entries: Vec::new(), contents: Ghost(Map::empty()) }
    }

    fn find(&self, key: &[u8]) -> (r: Option<usize>)
        requires
            self.wf(),
        ensures
            match r {
                Some(i) => i < self.entries@.len() && self.entries@[i as int].0@ == key@,
                None => !self@.contains_key(key@),
            },
    {
        let mut i: usize = 0;
        while i < self.entries.len()
            invariant
                self.wf(),
                i <= self.entries@.len(),
                forall|j: int| 0 <= j < i ==> self.entries@[j].0@ != key@,
            decreases self.entries@.len() - i,
        {
            if bytes_eq(self.entries[i].0.as_slice(), key) {
                return Some(i);
            }
            i = i + 1;
        }
        None
    }

    pub fn get(&self, key: &[u8]) -> (r: RoaringBitmap)
        requires
            self.wf(),
        ensures
            bitmap_set(r) == bits_of(self@, key@),
    {
        match self.find(key) {
            Some(i) => bitmap_clone(&self.entries[i].1),
            None => bitmap_new(),
        }
    }

    /// Adds (`set`) or removes a document id in the bitmap under `key`.
    pub fn update(&mut self, key: &[u8], document_id: u32, set: bool)
        requires
            old(self).wf(),
        ensures
            final(self).wf(),
            final(self)@ == old(self)@.insert(
                key@,
                if set {
                    bits_of(old(self)@, key@).insert(document_id)
                } else {
                    bits_of(old(self)@, key@).remove(document_id)
                },
            ),
    {
        let ghost old_entries = self.entries@;
        let ghost old_contents = self.contents@;
        let ghost mut gi: int = old_entries.len() as int;
        let (k, mut b) = match self.find(key) {
            Some(i) => {
                proof {
                    gi = i as int;
                }
                let e = self.entries.remove(i);
                proof {
                    assert forall|a: int, c: int| 0 <= a < c < self.entries@.len() implies self.entries@[a].0@
                        != self.entries@[c].0@ by {
                        let oa = if a < i { a } else { a + 1 };
                        let oc = if c < i { c } else { c + 1 };
                        assert(self.entries@[a] == old_entries[oa]);
                        assert(self.entries@[c] == old_entries[oc]);
                    }
                    assert forall|a: int| 0 <= a < self.entries@.len() implies self.entries@[a].0@ != key@ by {
                        let oa = if a < i { a } else { a + 1 };
                        assert(self.entries@[a] == old_entries[oa]);
                    }
                    assert(old_contents.contains_key(old_entries[i as int].0@));
                }
                e
            },
            None => {
                proof {
                    assert forall|a: int| 0 <= a < self.entries@.len() implies self.entries@[a].0@ != key@ by {
                        assert(old_contents.contains_key(self.entries@[a].0@));
                    }
                }
                (copy_bytes(key), bitmap_new())
            },
        };
        let ghost mid = self.entries@;
        assert forall|j: int| 0 <= j < old_entries.len() && j != gi implies mid[if j < gi { j } else { j - 1 }]
            == old_entries[j] by {}
        assert(gi < old_entries.len() ==> old_entries[gi].0@ == key@);
        if set {
            bitmap_insert(&mut b, document_id);
        } else {
            bitmap_remove(&mut b, document_id);
        }
        self.entries.push((k, b));
        self.contents = Ghost(
            old_contents.insert(
                key@,
                if set {
                    bits_of(old_contents, key@).insert(document_id)
                } else {
                    bits_of(old_contents, key@).remove(document_id)
                },
            ),
        );
        proof {
            assert forall|a: int| 0 <= a < mid.len() implies old_contents.contains_key(mid[a].0@)
                && old_contents[mid[a].0@] == bitmap_set(mid[a].1) by {
                let oa = if a < gi { a } else { a + 1 };
                assert(mid[a] == old_entries[oa]);
                assert(old_contents.contains_key(old_entries[oa].0@));
            }
            assert forall|k2: Seq<u8>| #[trigger] self.contents@.contains_key(k2) implies exists|j: int|
                0 <= j < self.entries@.len() && #[trigger] self.entries@[j].0@ == k2 by {
                if k2 == key@ {
                    assert(self.entries@[mid.len() as int].0@ == k2);
                } else {
                    let j = choose|j: int| 0 <= j < old_entries.len() && #[trigger] old_entries[j].0@ == k2;
                    assert(j != gi);
                    let m = if j < gi { j } else { j - 1 };
                    assert(mid[m] == old_entries[j]);
                    assert(self.entries@[m].0@ == k2);
                }
            }
        }
    }
}

fn opt_bytes_eq(a: &Option<Vec<u8>>, b: &Option<Vec<u8>>) -> (r: bool)
    ensures
        r == (opt_view(*a) == opt_view(*b)),
{
    match (a, b) {
        (Some(x), Some(y)) => bytes_eq(x.as_slice(), y.as_slice()),
        (None, None) => true,
        _ => false,
    }
}

/// A store keeping values and blobs in memory.
pub struct MemoryStore {
    values: Table,
    blobs: Table,
    bitmaps: BitmapTable,
}

impl View for MemoryStore {
    type V = Map<Seq<u8>, Seq<u8>>;

    closed spec fn view(&self) -> Map<Seq<u8>, Seq<u8>> {
        self.values@
    }
}

impl MemoryStore {
    pub closed spec fn wf(&self) -> bool {
        self.values.wf() && self.blobs.wf() && self.bitmaps.wf()
    }

    /// The stored bitmaps, by key.
    pub closed spec fn bitmaps(&self) -> Map<Seq<u8>, Set<u32>> {
        self.bitmaps@
    }

    /// The bitmap under `key`, empty when there is none.
    pub fn get_bitmap(&self, key: &[u8]) -> (r: RoaringBitmap)
        requires
            self.wf(),
        ensures
            bitmap_set(r) == bits_of(self.bitmaps(), key@),
    {
        self.bitmaps.get(key)
    }

    pub fn new() -> (r: MemoryStore)
        ensures
            r.wf(),
            r@ == Map::<Seq<u8>, Seq<u8>>::empty(),
            r.blobs() == Map::<Seq<u8>, Seq<u8>>::empty(),
            r.bitmaps() == Map::<Seq<u8>, Set<u32>>::empty(),
    {
        MemoryStore { values: Table::new(), blobs: Table::new(), bitmaps: BitmapTable::new() }
    }

    pub fn get(&self, key: &[u8]) -> (r: Option<Vec<u8>>)
        requires
            self.wf(),
        ensures
            opt_view(r) == value_of(self@, key@),
    {
        self.values.get(key)
    }

    pub fn set(&mut self, key: &[u8], value: &[u8])
        requires
            old(self).wf(),
        ensures
            final(self).wf(),
            final(self)@ == old(self)@.insert(key@, value@),
            final(self).blobs() == old(self).blobs(),
            final(self).bitmaps() == old(self).bitmaps(),
    {
        self.values.put(key, value);
    }

    pub fn delete(&mut self, key: &[u8]) -> (r: bool)
        requires
            old(self).wf(),
        ensures
            final(self).wf(),
            r == old(self)@.contains_key(key@),
            final(self)@ == old(self)@.remove(key@),
            final(self).blobs() == old(self).blobs(),
            final(self).bitmaps() == old(self).bitmaps(),
    {
        self.values.delete(key)
    }

    /// Scans the keys in `[begin, end)`.
    pub fn scan(&self, begin: &[u8], end: &[u8], first: bool, ascending: bool, values: bool) -> (r: Vec<
        (Vec<u8>, Vec<u8>),
    >)
        requires
            self.wf(),
        ensures
            is_scan_result(r@, self@, begin@, end@, first, ascending, values),
    {
        self.values.scan(begin, end, first, ascending, values)
    }

    /// Scans the keys between the encodings of `params.begin` (included) and
    /// `params.end` (excluded), subspace bytes included.
    pub fn iterate<T: Key>(&self, params: &IterateParams<T>) -> (r: Vec<(Vec<u8>, Vec<u8>)>)
        requires
            self.wf(),
        ensures
            is_scan_result(
                r@,
                self@,
                with_subspace(params.begin.key_subspace(), params.begin.key_body(), true),
                with_subspace(params.end.key_subspace(), params.end.key_body(), true),
                params.first,
                params.ascending,
                params.values,
            ),
    {
        let begin = params.begin.serialize(true);
        let end = params.end.serialize(true);
        self.values.scan(begin.as_slice(), end.as_slice(), params.first, params.ascending, params.values)
    }

    /// Applies a batch atomically: when every precondition holds, all its
    /// mutations apply in order; otherwise nothing changes and the batch
    /// fails with `AssertValueFailed`.
    pub fn write(&mut self, ops: &Vec<BatchOp>) -> (r: Result<(), Error>)
        requires
            old(self).wf(),
        ensures
            final(self).wf(),
            final(self).blobs() == old(self).blobs(),
            r is Ok <==> assertions_hold(ops@, old(self)@),
            r is Ok ==> final(self)@ == apply_ops(ops@, old(self)@, ops@.len()),
            r is Ok ==> final(self).bitmaps() == apply_bit_ops(ops@, old(self).bitmaps(), ops@.len()),
            r matches Err(e) ==> e is AssertValueFailed && final(self)@ == old(self)@ && final(self).bitmaps()
                == old(self).bitmaps(),
    {
        let mut i: usize = 0;
        while i < ops.len()
            invariant
                self.wf(),
                i <= ops@.len(),
                self.bitmaps() == old(self).bitmaps(),
                forall|j: int|
                    0 <= j < i ==> match #[trigger] ops@[j] {
                        BatchOp::AssertValue { key, value } => value_of(self@, key@) == opt_view(value),
                        _ => true,
                    },
            decreases ops@.len() - i,
        {
            match &ops[i] {
                BatchOp::AssertValue { key, value } => {
                    let current = self.values.get(key.as_slice());
                    if !opt_bytes_eq(&current, value) {
                        return Err(Error::AssertValueFailed);
                    }
                },
                _ => {},
            }
            i = i + 1;
        }
        let ghost start = self@;
        let mut i: usize = 0;
        while i < ops.len()
            invariant
                self.wf(),
                i <= ops@.len(),
                self.blobs() == old(self).blobs(),
                self@ == apply_ops(ops@, start, i as nat),
                self.bitmaps() == apply_bit_ops(ops@, old(self).bitmaps(), i as nat),
            decreases ops@.len() - i,
        {
            match &ops[i] {
                BatchOp::Put { key, value } => {
                    self.values.put(key.as_slice(), value.as_slice());
                },
                BatchOp::Clear { key } => {
                    self.values.delete(key.as_slice());
                },
                BatchOp::SetBit { key, document_id } => {
                    self.bitmaps.update(key.as_slice(), *document_id, true);
                },
                BatchOp::ClearBit { key, document_id } => {
                    self.bitmaps.update(key.as_slice(), *document_id, false);
                },
                BatchOp::AssertValue { .. } => {},
            }
            i = i + 1;
        }
        Ok(())
    }
}

impl BlobStore for MemoryStore {
    closed spec fn blob_store_wf(&self) -> bool {
        self.wf()
    }

    closed spec fn blobs(&self) -> Map<Seq<u8>, Seq<u8>> {
        self.blobs@
    }

    fn get_blob(&self, key: &[u8], range: Range<u32>) -> (r: Result<Option<Vec<u8>>, Error>) {
        match self.blobs.get(key) {
            None => Ok(None),
            Some(data) => {
                let len = data.len();
                let s: usize = if (range.start as usize) < len { range.start as usize } else { len };
                let e: usize = if (range.end as usize) < len { range.end as usize } else { len };
                let mut out: Vec<u8> = Vec::new();
                if s < e {
                    let mut k: usize = s;
                    while k < e
                        invariant
                            s <= k <= e <= data@.len(),
                            out@ == data@.subrange(s as int, k as int),
                        decreases e - k,
                    {
                        out.push(data[k]);
                        assert(data@.subrange(s as int, k + 1) =~= data@.subrange(s as int, k as int).push(data@[k as int]));
                        k = k + 1;
                    }
                }
                Ok(Some(out))
            },
        }
    }

    fn put_blob(&mut self, key: &[u8], data: &[u8]) -> (r: Result<(), Error>) {
        self.blobs.put(key, data);
        Ok(())
    }

    fn delete_blob(&mut self, key: &[u8]) -> (r: Result<bool, Error>) {
        Ok(self.blobs.delete(key))
    }
}


/// The operation is a precondition that `key` holds `expected`.
pub open spec fn asserts_value(op: BatchOp, key: Seq<u8>, expected: Option<Seq<u8>>) -> bool {
    match op {
        BatchOp::AssertValue { key: k, value } => k@ == key && opt_view(value) == expected,
        _ => false,
    }
}

/// The batch has at least one precondition, and each of them is that `key`
/// holds `expected`.
pub open spec fn guarded_by(ops: Seq<BatchOp>, key: Seq<u8>, expected: Option<Seq<u8>>) -> bool {
    &&& exists|i: int| 0 <= i < ops.len() && asserts_value(#[trigger] ops[i], key, expected)
    &&& forall|i: int| 0 <= i < ops.len() && (#[trigger] ops[i] is AssertValue) ==> asserts_value(ops[i], key, expected)
}

/// Two batches guarded by the same prior value of one key, where the first
/// changes that value: the first applies, the second then fails its
/// precondition, and a retry guarded by the value read after the first
/// applies.
pub proof fn lemma_compare_and_swap(
    m: Map<Seq<u8>, Seq<u8>>,
    first: Seq<BatchOp>,
    second: Seq<BatchOp>,
    retry: Seq<BatchOp>,
    key: Seq<u8>,
    expected: Option<Seq<u8>>,
)
    requires
        value_of(m, key) == expected,
        guarded_by(first, key, expected),
        guarded_by(second, key, expected),
        value_of(apply_ops(first, m, first.len()), key) != expected,
        guarded_by(retry, key, value_of(apply_ops(first, m, first.len()), key)),
    ensures
        assertions_hold(first, m),
        !assertions_hold(second, apply_ops(first, m, first.len())),
        assertions_hold(retry, apply_ops(first, m, first.len())),
{
    let m1 = apply_ops(first, m, first.len());
    let i = choose|i: int| 0 <= i < second.len() && asserts_value(#[trigger] second[i], key, expected);
    assert(!(match second[i] {
        BatchOp::AssertValue { key, value } => value_of(m1, key@) == opt_view(value),
        _ => true,
    }));
}

/// A blob read back after it was stored gives the requested bytes of it.
pub proof fn lemma_blob_put_get(
    blobs: Map<Seq<u8>, Seq<u8>>,
    key: Seq<u8>,
    data: Seq<u8>,
    start: u32,
    end: u32,
)
    requires
        start <= end <= data.len(),
    ensures
        blobs.insert(key, data).contains_key(key),
        blob_slice(blobs.insert(key, data)[key], start as int, end as int) == data.subrange(
            start as int,
            end as int,
        ),
{
    if start == end {
        assert(data.subrange(start as int, end as int) =~= Seq::<u8>::empty());
    }
}

/// After a blob is deleted, reading it gives nothing.
pub proof fn lemma_blob_delete(blobs: Map<Seq<u8>, Seq<u8>>, key: Seq<u8>)
    ensures
        !blobs.remove(key).contains_key(key),
{
}

} // verus!
