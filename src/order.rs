//! The lexicographic order on byte strings that every backend scans in.

use vstd::prelude::*;

verus! {

/// `a` sorts strictly before `b`: at their first difference `a` has the
/// smaller byte, or `a` is a proper prefix of `b`.
pub open spec fn lex_lt(a: Seq<u8>, b: Seq<u8>) -> bool
    decreases a.len(),
{
    if a.len() == 0 {
        b.len() > 0
    } else if b.len() == 0 {
        false
    } else if a[0] != b[0] {
        a[0] < b[0]
    } else {
        lex_lt(a.drop_first(), b.drop_first())
    }
}

pub proof fn lemma_lex_irreflexive(a: Seq<u8>)
    ensures
        !lex_lt(a, a),
    decreases a.len(),
{
    if a.len() > 0 {
        lemma_lex_irreflexive(a.drop_first());
    }
}

pub proof fn lemma_lex_transitive(a: Seq<u8>, b: Seq<u8>, c: Seq<u8>)
    requires
        lex_lt(a, b),
        lex_lt(b, c),
    ensures
        lex_lt(a, c),
    decreases a.len(),
{
    if a.len() > 0 && b.len() > 0 && c.len() > 0 && a[0] == b[0] && b[0] == c[0] {
        lemma_lex_transitive(a.drop_first(), b.drop_first(), c.drop_first());
    }
}

pub proof fn lemma_lex_total(a: Seq<u8>, b: Seq<u8>)
    ensures
        a == b || lex_lt(a, b) || lex_lt(b, a),
    decreases a.len(),
{
    if a.len() == 0 && b.len() == 0 {
        assert(a =~= b);
    } else if a.len() > 0 && b.len() > 0 && a[0] == b[0] {
        lemma_lex_total(a.drop_first(), b.drop_first());
        if a.drop_first() == b.drop_first() {
            assert(a =~= seq![a[0]] + a.drop_first());
            assert(b =~= seq![b[0]] + b.drop_first());
        }
    }
}

pub proof fn lemma_lex_asymmetric(a: Seq<u8>, b: Seq<u8>)
    requires
        lex_lt(a, b),
    ensures
        !lex_lt(b, a),
{
    if lex_lt(b, a) {
        lemma_lex_transitive(a, b, a);
        lemma_lex_irreflexive(a);
    }
}

/// A shared prefix does not decide the order.
pub proof fn lemma_lex_common_prefix(c: Seq<u8>, s: Seq<u8>, t: Seq<u8>)
    ensures
        lex_lt(c + s, c + t) == lex_lt(s, t),
    decreases c.len(),
{
    if c.len() == 0 {
        assert(c + s =~= s);
        assert(c + t =~= t);
    } else {
        assert((c + s).drop_first() =~= c.drop_first() + s);
        assert((c + t).drop_first() =~= c.drop_first() + t);
        lemma_lex_common_prefix(c.drop_first(), s, t);
    }
}

/// A string sorts no later than its extensions.
pub proof fn lemma_lex_extension(x: Seq<u8>, t: Seq<u8>)
    ensures
        !lex_lt(x + t, x),
        t.len() > 0 ==> lex_lt(x, x + t),
    decreases x.len(),
{
    if x.len() == 0 {
        assert(x + t =~= t);
    } else {
        assert((x + t).drop_first() =~= x.drop_first() + t);
        assert((x + t)[0] == x[0]);
        lemma_lex_extension(x.drop_first(), t);
    }
}

/// `p` is a prefix of `k`.
pub open spec fn has_prefix(k: Seq<u8>, p: Seq<u8>) -> bool {
    p.len() <= k.len() && k.subrange(0, p.len() as int) == p
}

/// Every extension of `p` lies in `[p, b)`, where `b` is the single byte
/// after `p`'s first byte.
pub proof fn lemma_prefix_in_range(k: Seq<u8>, p: Seq<u8>)
    requires
        has_prefix(k, p),
        p.len() >= 1,
        p[0] < 255,
    ensures
        !lex_lt(k, p),
        lex_lt(k, seq![(p[0] + 1) as u8]),
{
    let rest = k.subrange(p.len() as int, k.len() as int);
    assert(k =~= p + rest);
    lemma_lex_extension(p, rest);
    assert(k[0] == p[0]);
}

/// `p` read as a big-endian number plus one: trailing `0xff` bytes carry
/// into the last byte below `0xff`.
pub open spec fn successor(p: Seq<u8>) -> Seq<u8>
    decreases p.len(),
{
    if p.len() == 0 {
        p
    } else if p.last() < 255 {
        p.drop_last().push((p.last() + 1) as u8)
    } else {
        successor(p.drop_last())
    }
}

/// Against a string that `k` does not extend, an extension of it compares
/// with `k` as the string itself does.
proof fn lemma_lex_not_prefix(k: Seq<u8>, x: Seq<u8>, s: Seq<u8>)
    requires
        !has_prefix(k, x),
    ensures
        lex_lt(k, x + s) == lex_lt(k, x),
        lex_lt(x + s, k) == lex_lt(x, k),
    decreases x.len(),
{
    if x.len() == 0 {
        assert(k.subrange(0, 0) =~= x);
    } else if k.len() == 0 {
        assert((x + s).len() > 0);
    } else {
        assert((x + s)[0] == x[0]);
        if k[0] == x[0] {
            if has_prefix(k.drop_first(), x.drop_first()) {
                assert(k.subrange(0, x.len() as int) =~= seq![k[0]] + k.drop_first().subrange(0, x.len() - 1));
                assert(x =~= seq![x[0]] + x.drop_first());
            }
            assert((x + s).drop_first() =~= x.drop_first() + s);
            lemma_lex_not_prefix(k.drop_first(), x.drop_first(), s);
        }
    }
}

/// The half-open range `[p, successor(p))` holds exactly the extensions of
/// `p`, for any `p` whose first byte is below `0xff`.
pub proof fn lemma_successor_range(p: Seq<u8>, k: Seq<u8>)
    requires
        p.len() >= 1,
        p[0] < 255,
    ensures
        (!lex_lt(k, p) && lex_lt(k, successor(p))) <==> has_prefix(k, p),
    decreases p.len(),
{
    let c = p.drop_last();
    let a = p.last();
    assert(p =~= c + seq![a]);
    if a < 255 {
        let b = (a + 1) as u8;
        assert(successor(p) =~= c + seq![b]);
        if has_prefix(k, p) {
            let rest = k.subrange(p.len() as int, k.len() as int);
            assert(k =~= p + rest);
            lemma_lex_extension(p, rest);
            assert(k =~= c + (seq![a] + rest));
            lemma_lex_common_prefix(c, seq![a] + rest, seq![b]);
            assert((seq![a] + rest)[0] == a);
        } else if !has_prefix(k, c) {
            lemma_lex_not_prefix(k, c, seq![a]);
            lemma_lex_not_prefix(k, c, seq![b]);
        } else {
            let r = k.subrange(c.len() as int, k.len() as int);
            assert(k =~= c + r);
            lemma_lex_common_prefix(c, r, seq![a]);
            lemma_lex_common_prefix(c, r, seq![b]);
            if r.len() > 0 && r[0] == a {
                assert(k.subrange(0, p.len() as int) =~= c + seq![a]);
            }
            if r.len() > 0 && r[0] == b {
                assert(seq![b].drop_first().len() == 0);
                assert(!lex_lt(r.drop_first(), seq![b].drop_first()));
            }
        }
    } else {
        assert(successor(p) == successor(c));
        lemma_successor_range(c, k);
        lemma_lex_extension(c, seq![a]);
        if has_prefix(k, p) {
            let rest = k.subrange(p.len() as int, k.len() as int);
            assert(k =~= p + rest);
            lemma_lex_extension(p, rest);
            assert(k.subrange(0, c.len() as int) =~= c);
        } else if !lex_lt(k, p) && lex_lt(k, successor(p)) {
            if lex_lt(k, c) {
                lemma_lex_transitive(k, c, p);
            }
            let r = k.subrange(c.len() as int, k.len() as int);
            assert(k =~= c + r);
            lemma_lex_common_prefix(c, r, seq![a]);
            assert(r.len() > 0 && r[0] == 255);
            assert(k.subrange(0, p.len() as int) =~= c + seq![a]);
        }
    }
}

/// Whether `p` is a prefix of `k`.
pub fn starts_with(k: &[u8], p: &[u8]) -> (r: bool)
    ensures
        r == has_prefix(k@, p@),
{
    if p.len() > k.len() {
        return false;
    }
    let mut i: usize = 0;
    while i < p.len()
        invariant
            p@.len() <= k@.len(),
            i <= p@.len(),
            forall|j: int| 0 <= j < i ==> k@[j] == p@[j],
        decreases p@.len() - i,
    {
        if k[i] != p[i] {
            assert(k@.subrange(0, p@.len() as int)[i as int] != p@[i as int]);
            return false;
        }
        i = i + 1;
    }
    assert(k@.subrange(0, p@.len() as int) =~= p@);
    true
}

proof fn lemma_lex_skip(a: Seq<u8>, b: Seq<u8>, i: int)
    requires
        0 <= i < a.len(),
        i < b.len(),
        a[i] == b[i],
    ensures
        a.skip(i).drop_first() == a.skip(i + 1),
        b.skip(i).drop_first() == b.skip(i + 1),
        lex_lt(a.skip(i), b.skip(i)) == lex_lt(a.skip(i + 1), b.skip(i + 1)),
{
    assert(a.skip(i).drop_first() =~= a.skip(i + 1));
    assert(b.skip(i).drop_first() =~= b.skip(i + 1));
}

/// Compares two byte strings: negative, zero or positive as `a` sorts
/// before, equal to, or after `b`.
pub fn compare_bytes(a: &[u8], b: &[u8]) -> (r: i8)
    ensures
        (r < 0) == lex_lt(a@, b@),
        (r == 0) == (a@ == b@),
        (r > 0) == lex_lt(b@, a@),
{
    let mut i: usize = 0;
    assert(a@.skip(0) =~= a@);
    assert(b@.skip(0) =~= b@);
    while i < a.len() && i < b.len() && a[i] == b[i]
        invariant
            i <= a@.len(),
            i <= b@.len(),
            a@.subrange(0, i as int) == b@.subrange(0, i as int),
            lex_lt(a@, b@) == lex_lt(a@.skip(i as int), b@.skip(i as int)),
            lex_lt(b@, a@) == lex_lt(b@.skip(i as int), a@.skip(i as int)),
        decreases a@.len() - i,
    {
        proof {
            lemma_lex_skip(a@, b@, i as int);
            lemma_lex_skip(b@, a@, i as int);
            assert(a@.subrange(0, i + 1) =~= a@.subrange(0, i as int).push(a@[i as int]));
            assert(b@.subrange(0, i + 1) =~= b@.subrange(0, i as int).push(b@[i as int]));
        }
        i = i + 1;
    }
    proof {
        lemma_lex_irreflexive(a@);
    }
    if i < a.len() && i < b.len() {
        assert(a@.skip(i as int)[0] == a@[i as int]);
        assert(b@.skip(i as int)[0] == b@[i as int]);
        if a[i] < b[i] {
            -1
        } else {
            1
        }
    } else if i < b.len() {
        assert(a@ =~= a@.subrange(0, i as int));
        -1
    } else if i < a.len() {
        assert(b@ =~= b@.subrange(0, i as int));
        1
    } else {
        assert(a@ =~= a@.subrange(0, i as int));
        assert(b@ =~= b@.subrange(0, i as int));
        0
    }
}

} // verus!
