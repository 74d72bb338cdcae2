//! Typed keys and their ordered byte encoding.
//!
//! Every key encodes as `[subspace][account_id:4 BE][collection:1]` followed by
//! its fixed-width fields and, last, at most one variable-width field, so that
//! distinct keys never share an encoding and a key family's leading fields form
//! a byte prefix of every member.

use crate::order::{lemma_successor_range, lex_lt, successor};
use vstd::prelude::*;

verus! {

pub const SUBSPACE_BITMAPS: u8 = 98;
pub const SUBSPACE_VALUES: u8 = 118;
pub const SUBSPACE_LOGS: u8 = 108;
pub const SUBSPACE_INDEXES: u8 = 105;
pub const SUBSPACE_BLOBS: u8 = 111;
pub const SUBSPACE_ACLS: u8 = 97;
pub const SUBSPACE_COUNTERS: u8 = 99;

/// Big-endian bytes of a 32-bit integer.
pub open spec fn be32(v: u32) -> Seq<u8> {
    seq![(v >> 24u32) as u8, (v >> 16u32) as u8, (v >> 8u32) as u8, v as u8]
}

/// Big-endian bytes of a 64-bit integer.
pub open spec fn be64(v: u64) -> Seq<u8> {
    be32((v >> 32u64) as u32) + be32(v as u32)
}

/// The bytes of a key, with its subspace byte in front when asked for.
pub open spec fn with_subspace(sub: u8, body: Seq<u8>, include_subspace: bool) -> Seq<u8> {
    if include_subspace {
        seq![sub] + body
    } else {
        body
    }
}

/// A key of the store: an ordered byte encoding within one subspace.
pub trait Key {
    /// The encoding of the key, without its subspace byte.
    spec fn key_body(&self) -> Seq<u8>;

    /// The subspace the key lives in.
    spec fn key_subspace(&self) -> u8;

    fn serialize(&self, include_subspace: bool) -> (r: Vec<u8>)
        ensures
            r@ == with_subspace(self.key_subspace(), self.key_body(), include_subspace),
    ;

    fn subspace(&self) -> (r: u8)
        ensures
            r == self.key_subspace(),
    ;
}

pub(crate) fn push_u32(out: &mut Vec<u8>, v: u32)
    ensures
        final(out)@ == old(out)@ + be32(v),
{
    out.push((v >> 24u32) as u8);
    out.push((v >> 16u32) as u8);
    out.push((v >> 8u32) as u8);
    out.push(v as u8);
    assert(final(out)@ =~= old(out)@ + be32(v));
}

pub(crate) fn push_u64(out: &mut Vec<u8>, v: u64)
    ensures
        final(out)@ == old(out)@ + be64(v),
{
    push_u32(out, (v >> 32u64) as u32);
    push_u32(out, v as u32);
    assert(final(out)@ =~= old(out)@ + be64(v));
}

pub(crate) fn push_bytes(out: &mut Vec<u8>, bytes: &Vec<u8>)
    ensures
        final(out)@ == old(out)@ + bytes@,
{
    let mut i: usize = 0;
    while i < bytes.len()
        invariant
            i <= bytes.len(),
            out@ == old(out)@ + bytes@.subrange(0, i as int),
        decreases bytes.len() - i,
    {
        out.push(bytes[i]);
        assert(bytes@.subrange(0, i + 1) =~= bytes@.subrange(0, i as int).push(bytes@[i as int]));
        i = i + 1;
    }
    assert(bytes@.subrange(0, bytes@.len() as int) =~= bytes@);
}

fn start_key(include_subspace: bool, sub: u8, account_id: u32, collection: u8) -> (r: Vec<u8>)
    ensures
        r@ == with_subspace(sub, be32(account_id) + seq![collection], include_subspace),
{
    let mut out: Vec<u8> = Vec::new();
    if include_subspace {
        out.push(sub);
    }
    push_u32(&mut out, account_id);
    out.push(collection);
    assert(out@ =~= with_subspace(sub, be32(account_id) + seq![collection], include_subspace));
    out
}


/// Which bitmap family a bitmap block belongs to.
pub enum BitmapClass {
    DocumentIds,
    Tag { field: u8, value: u32 },
    Text { field: u8, token: Vec<u8> },
}

pub open spec fn bitmap_class_bytes(c: BitmapClass) -> Seq<u8> {
    match c {
        BitmapClass::DocumentIds => seq![0u8],
        BitmapClass::Tag { field, value } => seq![1u8, field] + be32(value),
        BitmapClass::Text { field, token } => seq![2u8, field] + token@,
    }
}

/// Two bitmap classes with the same variant and the same field values.
pub open spec fn same_bitmap_class(a: BitmapClass, b: BitmapClass) -> bool {
    match (a, b) {
        (BitmapClass::DocumentIds, BitmapClass::DocumentIds) => true,
        (BitmapClass::Tag { field: f1, value: v1 }, BitmapClass::Tag { field: f2, value: v2 }) =>
            f1 == f2 && v1 == v2,
        (BitmapClass::Text { field: f1, token: t1 }, BitmapClass::Text { field: f2, token: t2 }) =>
            f1 == f2 && t1@ == t2@,
        _ => false,
    }
}

/// Which kind of scalar value a value key addresses.
pub enum ValueClass {
    Property(u8),
    Acl(u32),
    Named(Vec<u8>),
}

pub open spec fn value_class_bytes(c: ValueClass) -> Seq<u8> {
    match c {
        ValueClass::Property(field) => seq![0u8, field],
        ValueClass::Acl(grant) => seq![1u8] + be32(grant),
        ValueClass::Named(name) => seq![2u8] + name@,
    }
}

pub open spec fn same_value_class(a: ValueClass, b: ValueClass) -> bool {
    match (a, b) {
        (ValueClass::Property(f1), ValueClass::Property(f2)) => f1 == f2,
        (ValueClass::Acl(g1), ValueClass::Acl(g2)) => g1 == g2,
        (ValueClass::Named(n1), ValueClass::Named(n2)) => n1@ == n2@,
        _ => false,
    }
}

/// What a blob record states about a blob.
#[derive(PartialEq, Eq, Structural, Clone, Copy)]
pub enum BlobOp {
    Reserve { until: u64 },
    Commit,
    Link,
}

pub open spec fn blob_op_bytes(op: BlobOp) -> Seq<u8> {
    match op {
        BlobOp::Reserve { until } => seq![0u8] + be64(until),
        BlobOp::Commit => seq![1u8],
        BlobOp::Link => seq![2u8],
    }
}

/// A 32-byte content digest.
pub struct BlobHash(pub [u8; 32]);

impl View for BlobHash {
    type V = Seq<u8>;

    open spec fn view(&self) -> Seq<u8> {
        self.0@
    }
}

/// The BLAKE3 digest of some bytes.
pub uninterp spec fn blake3_digest(data: Seq<u8>) -> Seq<u8>;

/// Relies on `blake3::hash`: the 32-byte BLAKE3 digest of the input, which
/// depends on the input bytes alone.
#[verifier::external_body]
fn blake3_hash(data: &[u8]) -> (r: [u8; 32])
    ensures
        r@ == blake3_digest(data@),
{
    blake3::hash(data).into()
}

impl BlobHash {
    /// The content address of `data`: equal contents give equal hashes.
    pub fn from_content(data: &[u8]) -> (r: BlobHash)
        ensures
            r@ == blake3_digest(data@),
    {
        BlobHash(blake3_hash(data))
    }
}

/// Where a blob stands in its lifecycle.
#[derive(PartialEq, Eq, Structural, Clone, Copy)]
pub enum BlobClass {
    Reserved { account_id: u32 },
    Linked { account_id: u32, collection: u8, document_id: u32 },
}

impl Default for BlobClass {
    fn default() -> (r: BlobClass)
        ensures
            r == (BlobClass::Reserved { account_id: 0 }),
    {
        BlobClass::Reserved { account_id: 0 }
    }
}

pub struct BitmapKey {
    pub account_id: u32,
    pub collection: u8,
    pub class: BitmapClass,
    pub block_num: u32,
}

pub struct IndexKey {
    pub account_id: u32,
    pub collection: u8,
    pub document_id: u32,
    pub field: u8,
    pub key: Vec<u8>,
}

#[derive(PartialEq, Eq, Structural, Clone, Copy)]
pub struct IndexKeyPrefix {
    pub account_id: u32,
    pub collection: u8,
    pub field: u8,
}

pub struct ValueKey {
    pub account_id: u32,
    pub collection: u8,
    pub document_id: u32,
    pub class: ValueClass,
}

pub struct BlobKey {
    pub account_id: u32,
    pub collection: u8,
    pub document_id: u32,
    pub hash: BlobHash,
    pub op: BlobOp,
}

#[derive(PartialEq, Eq, Structural, Clone, Copy)]
pub struct LogKey {
    pub account_id: u32,
    pub collection: u8,
    pub change_id: u64,
}

fn push_bitmap_class(out: &mut Vec<u8>, c: &BitmapClass)
    ensures
        final(out)@ == old(out)@ + bitmap_class_bytes(*c),
{
    match c {
        BitmapClass::DocumentIds => {
            out.push(0u8);
            assert(final(out)@ =~= old(out)@ + bitmap_class_bytes(*c));
        },
        BitmapClass::Tag { field, value } => {
            out.push(1u8);
            out.push(*field);
            push_u32(out, *value);
            assert(final(out)@ =~= old(out)@ + bitmap_class_bytes(*c));
        },
        BitmapClass::Text { field, token } => {
            out.push(2u8);
            out.push(*field);
            push_bytes(out, token);
            assert(final(out)@ =~= old(out)@ + bitmap_class_bytes(*c));
        },
    }
}

fn push_value_class(out: &mut Vec<u8>, c: &ValueClass)
    ensures
        final(out)@ == old(out)@ + value_class_bytes(*c),
{
    match c {
        ValueClass::Property(field) => {
            out.push(0u8);
            out.push(*field);
            assert(final(out)@ =~= old(out)@ + value_class_bytes(*c));
        },
        ValueClass::Acl(grant) => {
            out.push(1u8);
            push_u32(out, *grant);
            assert(final(out)@ =~= old(out)@ + value_class_bytes(*c));
        },
        ValueClass::Named(name) => {
            out.push(2u8);
            push_bytes(out, name);
            assert(final(out)@ =~= old(out)@ + value_class_bytes(*c));
        },
    }
}

fn push_blob_op(out: &mut Vec<u8>, op: BlobOp)
    ensures
        final(out)@ == old(out)@ + blob_op_bytes(op),
{
    match op {
        BlobOp::Reserve { until } => {
            out.push(0u8);
            push_u64(out, until);
            assert(final(out)@ =~= old(out)@ + blob_op_bytes(op));
        },
        BlobOp::Commit => {
            out.push(1u8);
            assert(final(out)@ =~= old(out)@ + blob_op_bytes(op));
        },
        BlobOp::Link => {
            out.push(2u8);
            assert(final(out)@ =~= old(out)@ + blob_op_bytes(op));
        },
    }
}

pub(crate) fn push_hash(out: &mut Vec<u8>, hash: &BlobHash)
    ensures
        final(out)@ == old(out)@ + hash@,
{
    let mut i: usize = 0;
    while i < 32
        invariant
            i <= 32,
            hash@.len() == 32,
            out@ == old(out)@ + hash@.subrange(0, i as int),
        decreases 32 - i,
    {
        out.push(hash.0[i]);
        assert(hash@.subrange(0, i + 1) =~= hash@.subrange(0, i as int).push(hash@[i as int]));
        i = i + 1;
    }
    assert(hash@.subrange(0, 32) =~= hash@);
}

impl Key for BitmapKey {
    open spec fn key_body(&self) -> Seq<u8> {
        be32(self.account_id) + seq![self.collection] + be32(self.block_num) + bitmap_class_bytes(
            self.class,
        )
    }

    open spec fn key_subspace(&self) -> u8 {
        SUBSPACE_BITMAPS
    }

    fn serialize(&self, include_subspace: bool) -> (r: Vec<u8>) {
        let mut out = start_key(include_subspace, SUBSPACE_BITMAPS, self.account_id, self.collection);
        push_u32(&mut out, self.block_num);
        push_bitmap_class(&mut out, &self.class);
        assert(out@ =~= with_subspace(SUBSPACE_BITMAPS, self.key_body(), include_subspace));
        out
    }

    fn subspace(&self) -> (r: u8) {
        SUBSPACE_BITMAPS
    }
}

impl Key for IndexKey {
    open spec fn key_body(&self) -> Seq<u8> {
        be32(self.account_id) + seq![self.collection] + seq![self.field] + self.key@ + be32(
            self.document_id,
        )
    }

    open spec fn key_subspace(&self) -> u8 {
        SUBSPACE_INDEXES
    }

    fn serialize(&self, include_subspace: bool) -> (r: Vec<u8>) {
        let mut out = start_key(include_subspace, SUBSPACE_INDEXES, self.account_id, self.collection);
        out.push(self.field);
        push_bytes(&mut out, &self.key);
        push_u32(&mut out, self.document_id);
        assert(out@ =~= with_subspace(SUBSPACE_INDEXES, self.key_body(), include_subspace));
        out
    }

    fn subspace(&self) -> (r: u8) {
        SUBSPACE_INDEXES
    }
}

impl Key for IndexKeyPrefix {
    open spec fn key_body(&self) -> Seq<u8> {
        be32(self.account_id) + seq![self.collection] + seq![self.field]
    }

    open spec fn key_subspace(&self) -> u8 {
        SUBSPACE_INDEXES
    }

    fn serialize(&self, include_subspace: bool) -> (r: Vec<u8>) {
        let mut out = start_key(include_subspace, SUBSPACE_INDEXES, self.account_id, self.collection);
        out.push(self.field);
        assert(out@ =~= with_subspace(SUBSPACE_INDEXES, self.key_body(), include_subspace));
        out
    }

    fn subspace(&self) -> (r: u8) {
        SUBSPACE_INDEXES
    }
}

impl Key for ValueKey {
    open spec fn key_body(&self) -> Seq<u8> {
        be32(self.account_id) + seq![self.collection] + be32(self.document_id) + value_class_bytes(
            self.class,
        )
    }

    open spec fn key_subspace(&self) -> u8 {
        SUBSPACE_VALUES
    }

    fn serialize(&self, include_subspace: bool) -> (r: Vec<u8>) {
        let mut out = start_key(include_subspace, SUBSPACE_VALUES, self.account_id, self.collection);
        push_u32(&mut out, self.document_id);
        push_value_class(&mut out, &self.class);
        assert(out@ =~= with_subspace(SUBSPACE_VALUES, self.key_body(), include_subspace));
        out
    }

    fn subspace(&self) -> (r: u8) {
        SUBSPACE_VALUES
    }
}

impl Key for BlobKey {
    open spec fn key_body(&self) -> Seq<u8> {
        be32(self.account_id) + seq![self.collection] + be32(self.document_id) + self.hash@
            + blob_op_bytes(self.op)
    }

    open spec fn key_subspace(&self) -> u8 {
        SUBSPACE_BLOBS
    }

    fn serialize(&self, include_subspace: bool) -> (r: Vec<u8>) {
        let mut out = start_key(include_subspace, SUBSPACE_BLOBS, self.account_id, self.collection);
        push_u32(&mut out, self.document_id);
        push_hash(&mut out, &self.hash);
        push_blob_op(&mut out, self.op);
        assert(out@ =~= with_subspace(SUBSPACE_BLOBS, self.key_body(), include_subspace));
        out
    }

    fn subspace(&self) -> (r: u8) {
        SUBSPACE_BLOBS
    }
}

impl Key for LogKey {
    open spec fn key_body(&self) -> Seq<u8> {
        be32(self.account_id) + seq![self.collection] + be64(self.change_id)
    }

    open spec fn key_subspace(&self) -> u8 {
        SUBSPACE_LOGS
    }

    fn serialize(&self, include_subspace: bool) -> (r: Vec<u8>) {
        let mut out = start_key(include_subspace, SUBSPACE_LOGS, self.account_id, self.collection);
        push_u64(&mut out, self.change_id);
        assert(out@ =~= with_subspace(SUBSPACE_LOGS, self.key_body(), include_subspace));
        out
    }

    fn subspace(&self) -> (r: u8) {
        SUBSPACE_LOGS
    }
}


proof fn lemma_be32_injective(a: u32, b: u32)
    requires
        be32(a) == be32(b),
    ensures
        a == b,
{
    assert(be32(a)[0] == be32(b)[0] && be32(a)[1] == be32(b)[1]);
    assert(be32(a)[2] == be32(b)[2] && be32(a)[3] == be32(b)[3]);
    assert(a == b) by (bit_vector)
        requires
            (a >> 24u32) as u8 == (b >> 24u32) as u8,
            (a >> 16u32) as u8 == (b >> 16u32) as u8,
            (a >> 8u32) as u8 == (b >> 8u32) as u8,
            a as u8 == b as u8,
    ;
}

proof fn lemma_be64_injective(a: u64, b: u64)
    requires
        be64(a) == be64(b),
    ensures
        a == b,
{
    lemma_split_front(be32((a >> 32u64) as u32), be32(a as u32), be32((b >> 32u64) as u32), be32(b as u32));
    lemma_be32_injective((a >> 32u64) as u32, (b >> 32u64) as u32);
    lemma_be32_injective(a as u32, b as u32);
    assert(a == b) by (bit_vector)
        requires
            (a >> 32u64) as u32 == (b >> 32u64) as u32,
            a as u32 == b as u32,
    ;
}

/// Two concatenations with equally long front parts have equal parts.
proof fn lemma_split_front(a1: Seq<u8>, b1: Seq<u8>, a2: Seq<u8>, b2: Seq<u8>)
    requires
        a1 + b1 == a2 + b2,
        a1.len() == a2.len(),
    ensures
        a1 == a2,
        b1 == b2,
{
    assert(a1 =~= (a1 + b1).subrange(0, a1.len() as int));
    assert(a2 =~= (a2 + b2).subrange(0, a2.len() as int));
    assert(b1 =~= (a1 + b1).subrange(a1.len() as int, (a1 + b1).len() as int));
    assert(b2 =~= (a2 + b2).subrange(a2.len() as int, (a2 + b2).len() as int));
}

/// Two concatenations with equally long back parts have equal parts.
proof fn lemma_split_back(a1: Seq<u8>, b1: Seq<u8>, a2: Seq<u8>, b2: Seq<u8>)
    requires
        a1 + b1 == a2 + b2,
        b1.len() == b2.len(),
    ensures
        a1 == a2,
        b1 == b2,
{
    assert((a1 + b1).len() == (a2 + b2).len());
    assert((a1 + b1).len() == a1.len() + b1.len());
    assert((a2 + b2).len() == a2.len() + b2.len());
    lemma_split_front(a1, b1, a2, b2);
}

proof fn lemma_subspace_body(sub: u8, b1: Seq<u8>, b2: Seq<u8>, include_subspace: bool)
    requires
        with_subspace(sub, b1, include_subspace) == with_subspace(sub, b2, include_subspace),
    ensures
        b1 == b2,
{
    if include_subspace {
        lemma_split_front(seq![sub], b1, seq![sub], b2);
    }
}

/// The leading `[account_id][collection]` bytes shared by every key.
proof fn lemma_head(a1: u32, c1: u8, a2: u32, c2: u8, r1: Seq<u8>, r2: Seq<u8>)
    requires
        be32(a1) + seq![c1] + r1 == be32(a2) + seq![c2] + r2,
    ensures
        a1 == a2,
        c1 == c2,
        r1 == r2,
{
    lemma_split_front(be32(a1) + seq![c1], r1, be32(a2) + seq![c2], r2);
    lemma_split_front(be32(a1), seq![c1], be32(a2), seq![c2]);
    lemma_be32_injective(a1, a2);
    assert(seq![c1][0] == seq![c2][0]);
}

proof fn lemma_bitmap_class_first(c: BitmapClass)
    ensures
        bitmap_class_bytes(c).len() >= 1,
        bitmap_class_bytes(c)[0] == match c {
            BitmapClass::DocumentIds => 0u8,
            BitmapClass::Tag { .. } => 1u8,
            BitmapClass::Text { .. } => 2u8,
        },
{
}

proof fn lemma_value_class_first(c: ValueClass)
    ensures
        value_class_bytes(c).len() >= 1,
        value_class_bytes(c)[0] == match c {
            ValueClass::Property(_) => 0u8,
            ValueClass::Acl(_) => 1u8,
            ValueClass::Named(_) => 2u8,
        },
{
}

proof fn lemma_blob_op_first(op: BlobOp)
    ensures
        blob_op_bytes(op).len() >= 1,
        blob_op_bytes(op)[0] == match op {
            BlobOp::Reserve { .. } => 0u8,
            BlobOp::Commit => 1u8,
            BlobOp::Link => 2u8,
        },
{
}

proof fn lemma_bitmap_class_injective(a: BitmapClass, b: BitmapClass)
    requires
        bitmap_class_bytes(a) == bitmap_class_bytes(b),
    ensures
        same_bitmap_class(a, b),
{
    lemma_bitmap_class_first(a);
    lemma_bitmap_class_first(b);
    match (a, b) {
        (BitmapClass::Tag { field: f1, value: v1 }, BitmapClass::Tag { field: f2, value: v2 }) => {
            lemma_split_front(seq![1u8, f1], be32(v1), seq![1u8, f2], be32(v2));
            assert(seq![1u8, f1][1] == seq![1u8, f2][1]);
            lemma_be32_injective(v1, v2);
        },
        (BitmapClass::Text { field: f1, token: t1 }, BitmapClass::Text { field: f2, token: t2 }) => {
            assert(bitmap_class_bytes(a)[1] == bitmap_class_bytes(b)[1]);
            lemma_split_front(seq![2u8, f1], t1@, seq![2u8, f2], t2@);
        },
        _ => {},
    }
}

proof fn lemma_value_class_injective(a: ValueClass, b: ValueClass)
    requires
        value_class_bytes(a) == value_class_bytes(b),
    ensures
        same_value_class(a, b),
{
    lemma_value_class_first(a);
    lemma_value_class_first(b);
    match (a, b) {
        (ValueClass::Property(f1), ValueClass::Property(f2)) => {
            assert(value_class_bytes(a)[1] == value_class_bytes(b)[1]);
        },
        (ValueClass::Acl(g1), ValueClass::Acl(g2)) => {
            lemma_split_front(seq![1u8], be32(g1), seq![1u8], be32(g2));
            lemma_be32_injective(g1, g2);
        },
        (ValueClass::Named(n1), ValueClass::Named(n2)) => {
            lemma_split_front(seq![2u8], n1@, seq![2u8], n2@);
        },
        _ => {},
    }
}

proof fn lemma_blob_op_injective(a: BlobOp, b: BlobOp)
    requires
        blob_op_bytes(a) == blob_op_bytes(b),
    ensures
        a == b,
{
    lemma_blob_op_first(a);
    lemma_blob_op_first(b);
    match (a, b) {
        (BlobOp::Reserve { until: u1 }, BlobOp::Reserve { until: u2 }) => {
            lemma_split_front(seq![0u8], be64(u1), seq![0u8], be64(u2));
            lemma_be64_injective(u1, u2);
        },
        _ => {},
    }
}

/// Distinct bitmap keys never encode to the same bytes.
pub proof fn lemma_bitmap_key_injective(a: BitmapKey, b: BitmapKey, include_subspace: bool)
    requires
        with_subspace(a.key_subspace(), a.key_body(), include_subspace) == with_subspace(
            b.key_subspace(),
            b.key_body(),
            include_subspace,
        ),
    ensures
        a.account_id == b.account_id,
        a.collection == b.collection,
        a.block_num == b.block_num,
        same_bitmap_class(a.class, b.class),
{
    lemma_subspace_body(SUBSPACE_BITMAPS, a.key_body(), b.key_body(), include_subspace);
    let ra = be32(a.block_num) + bitmap_class_bytes(a.class);
    let rb = be32(b.block_num) + bitmap_class_bytes(b.class);
    assert(a.key_body() =~= be32(a.account_id) + seq![a.collection] + ra);
    assert(b.key_body() =~= be32(b.account_id) + seq![b.collection] + rb);
    lemma_head(a.account_id, a.collection, b.account_id, b.collection, ra, rb);
    lemma_split_front(be32(a.block_num), bitmap_class_bytes(a.class), be32(b.block_num), bitmap_class_bytes(b.class));
    lemma_be32_injective(a.block_num, b.block_num);
    lemma_bitmap_class_injective(a.class, b.class);
}

/// Distinct index keys never encode to the same bytes.
pub proof fn lemma_index_key_injective(a: IndexKey, b: IndexKey, include_subspace: bool)
    requires
        with_subspace(a.key_subspace(), a.key_body(), include_subspace) == with_subspace(
            b.key_subspace(),
            b.key_body(),
            include_subspace,
        ),
    ensures
        a.account_id == b.account_id,
        a.collection == b.collection,
        a.document_id == b.document_id,
        a.field == b.field,
        a.key@ == b.key@,
{
    lemma_subspace_body(SUBSPACE_INDEXES, a.key_body(), b.key_body(), include_subspace);
    let ra = seq![a.field] + a.key@ + be32(a.document_id);
    let rb = seq![b.field] + b.key@ + be32(b.document_id);
    assert(a.key_body() =~= be32(a.account_id) + seq![a.collection] + ra);
    assert(b.key_body() =~= be32(b.account_id) + seq![b.collection] + rb);
    lemma_head(a.account_id, a.collection, b.account_id, b.collection, ra, rb);
    lemma_split_back(seq![a.field] + a.key@, be32(a.document_id), seq![b.field] + b.key@, be32(b.document_id));
    lemma_be32_injective(a.document_id, b.document_id);
    lemma_split_front(seq![a.field], a.key@, seq![b.field], b.key@);
    assert(seq![a.field][0] == seq![b.field][0]);
}

/// Distinct index prefixes never encode to the same bytes.
pub proof fn lemma_index_prefix_injective(a: IndexKeyPrefix, b: IndexKeyPrefix, include_subspace: bool)
    requires
        with_subspace(a.key_subspace(), a.key_body(), include_subspace) == with_subspace(
            b.key_subspace(),
            b.key_body(),
            include_subspace,
        ),
    ensures
        a == b,
{
    lemma_subspace_body(SUBSPACE_INDEXES, a.key_body(), b.key_body(), include_subspace);
    lemma_head(a.account_id, a.collection, b.account_id, b.collection, seq![a.field], seq![b.field]);
    assert(seq![a.field][0] == seq![b.field][0]);
}

/// Distinct value keys never encode to the same bytes.
pub proof fn lemma_value_key_injective(a: ValueKey, b: ValueKey, include_subspace: bool)
    requires
        with_subspace(a.key_subspace(), a.key_body(), include_subspace) == with_subspace(
            b.key_subspace(),
            b.key_body(),
            include_subspace,
        ),
    ensures
        a.account_id == b.account_id,
        a.collection == b.collection,
        a.document_id == b.document_id,
        same_value_class(a.class, b.class),
{
    lemma_subspace_body(SUBSPACE_VALUES, a.key_body(), b.key_body(), include_subspace);
    let ra = be32(a.document_id) + value_class_bytes(a.class);
    let rb = be32(b.document_id) + value_class_bytes(b.class);
    assert(a.key_body() =~= be32(a.account_id) + seq![a.collection] + ra);
    assert(b.key_body() =~= be32(b.account_id) + seq![b.collection] + rb);
    lemma_head(a.account_id, a.collection, b.account_id, b.collection, ra, rb);
    lemma_split_front(be32(a.document_id), value_class_bytes(a.class), be32(b.document_id), value_class_bytes(b.class));
    lemma_be32_injective(a.document_id, b.document_id);
    lemma_value_class_injective(a.class, b.class);
}

/// Distinct blob keys never encode to the same bytes.
pub proof fn lemma_blob_key_injective(a: BlobKey, b: BlobKey, include_subspace: bool)
    requires
        with_subspace(a.key_subspace(), a.key_body(), include_subspace) == with_subspace(
            b.key_subspace(),
            b.key_body(),
            include_subspace,
        ),
    ensures
        a.account_id == b.account_id,
        a.collection == b.collection,
        a.document_id == b.document_id,
        a.hash@ == b.hash@,
        a.op == b.op,
{
    lemma_subspace_body(SUBSPACE_BLOBS, a.key_body(), b.key_body(), include_subspace);
    let ra = be32(a.document_id) + a.hash@ + blob_op_bytes(a.op);
    let rb = be32(b.document_id) + b.hash@ + blob_op_bytes(b.op);
    assert(a.key_body() =~= be32(a.account_id) + seq![a.collection] + ra);
    assert(b.key_body() =~= be32(b.account_id) + seq![b.collection] + rb);
    lemma_head(a.account_id, a.collection, b.account_id, b.collection, ra, rb);
    assert(a.hash@.len() == 32 && b.hash@.len() == 32);
    lemma_split_front(be32(a.document_id) + a.hash@, blob_op_bytes(a.op), be32(b.document_id) + b.hash@, blob_op_bytes(b.op));
    lemma_split_front(be32(a.document_id), a.hash@, be32(b.document_id), b.hash@);
    lemma_be32_injective(a.document_id, b.document_id);
    lemma_blob_op_injective(a.op, b.op);
}

/// Distinct change-log keys never encode to the same bytes.
pub proof fn lemma_log_key_injective(a: LogKey, b: LogKey, include_subspace: bool)
    requires
        with_subspace(a.key_subspace(), a.key_body(), include_subspace) == with_subspace(
            b.key_subspace(),
            b.key_body(),
            include_subspace,
        ),
    ensures
        a == b,
{
    lemma_subspace_body(SUBSPACE_LOGS, a.key_body(), b.key_body(), include_subspace);
    lemma_head(a.account_id, a.collection, b.account_id, b.collection, be64(a.change_id), be64(b.change_id));
    lemma_be64_injective(a.change_id, b.change_id);
}

/// The prefix of an index field is a strict byte prefix of an index key's
/// encoding exactly when the key has the prefix's account, collection and field.
pub proof fn lemma_index_prefix_matches(p: IndexKeyPrefix, k: IndexKey, include_subspace: bool)
    ensures
        ({
            let pb = with_subspace(p.key_subspace(), p.key_body(), include_subspace);
            let kb = with_subspace(k.key_subspace(), k.key_body(), include_subspace);
            &&& pb.len() < kb.len()
            &&& (kb.subrange(0, pb.len() as int) == pb <==> (p.account_id == k.account_id
                && p.collection == k.collection && p.field == k.field))
        }),
{
    let pb = with_subspace(p.key_subspace(), p.key_body(), include_subspace);
    let kb = with_subspace(k.key_subspace(), k.key_body(), include_subspace);
    let kp = IndexKeyPrefix { account_id: k.account_id, collection: k.collection, field: k.field };
    let kpb = with_subspace(kp.key_subspace(), kp.key_body(), include_subspace);
    let rest = k.key@ + be32(k.document_id);
    assert(kb =~= kpb + rest);
    assert(kb.subrange(0, pb.len() as int) =~= kpb);
    if kb.subrange(0, pb.len() as int) == pb {
        lemma_index_prefix_injective(p, kp, include_subspace);
    }
}


/// The scan range `[p, p + 1)`, with `p` a field's prefix (subspace byte
/// included) and `p + 1` its big-endian successor, holds exactly the index
/// keys of the field's account, collection and field.
pub proof fn lemma_index_prefix_range(p: IndexKeyPrefix, k: IndexKey)
    ensures
        ({
            let pb = with_subspace(p.key_subspace(), p.key_body(), true);
            let kb = with_subspace(k.key_subspace(), k.key_body(), true);
            (!lex_lt(kb, pb) && lex_lt(kb, successor(pb))) <==> (p.account_id == k.account_id && p.collection
                == k.collection && p.field == k.field)
        }),
{
    let pb = with_subspace(p.key_subspace(), p.key_body(), true);
    let kb = with_subspace(k.key_subspace(), k.key_body(), true);
    assert(pb[0] == SUBSPACE_INDEXES);
    lemma_successor_range(pb, kb);
    lemma_index_prefix_matches(p, k, true);
}

} // verus!
