//! Evaluation of a flat filter sequence with an explicit stack of scopes.
//!
//! `And`, `Or` and `Not` open a scope and `End` closes the innermost one. A
//! scope accumulates its children by intersection (`And`) or union (`Or`,
//! `Not`); a closed `Not` scope contributes the complement of its union within
//! the considered documents. The sequence as a whole is an `And` scope.

use crate::bitmap::{bitmap_and, bitmap_clone, bitmap_new, bitmap_or, bitmap_set, bitmap_sub};
use crate::query::{Filter, ResultSet};
use crate::Error;
use roaring::RoaringBitmap;
use vstd::prelude::*;

verus! {

#[derive(PartialEq, Eq, Structural, Clone, Copy)]
pub enum ScopeOp {
    And,
    Or,
    Not,
}

/// How much a token changes the nesting depth.
pub open spec fn depth_change(f: Filter) -> int {
    match f {
        Filter::And | Filter::Or | Filter::Not => 1,
        Filter::End => -1,
        _ => 0,
    }
}

/// The nesting depth after the first `n` tokens.
pub open spec fn depth(s: Seq<Filter>, n: nat) -> int
    decreases n,
{
    if n == 0 || n > s.len() {
        0
    } else {
        depth(s, (n - 1) as nat) + depth_change(s[n - 1])
    }
}

/// Every opening token has exactly one matching `End`: no prefix closes more
/// scopes than it opened, and the whole sequence closes all it opened.
pub open spec fn balanced(s: Seq<Filter>) -> bool {
    &&& forall|n: nat| n <= s.len() ==> depth(s, n) >= 0
    &&& depth(s, s.len()) == 0
}

/// What a leaf contributes: its own set for `DocumentSet`, else the set
/// resolved for its position.
pub open spec fn leaf_set(f: Filter, resolved: RoaringBitmap) -> Set<u32> {
    match f {
        Filter::DocumentSet(b) => bitmap_set(b),
        _ => bitmap_set(resolved),
    }
}

pub open spec fn combine(op: ScopeOp, acc: Option<Set<u32>>, x: Set<u32>) -> Option<Set<u32>> {
    match acc {
        None => Some(x),
        Some(a) => Some(
            if op == ScopeOp::And {
                a.intersect(x)
            } else {
                a.union(x)
            },
        ),
    }
}

/// The set a scope stands for once it is closed.
pub open spec fn close(op: ScopeOp, acc: Option<Set<u32>>, universe: Set<u32>) -> Set<u32> {
    let a = match acc {
        Some(a) => a,
        None => Set::empty(),
    };
    if op == ScopeOp::Not {
        universe.difference(a)
    } else {
        a
    }
}

/// The innermost open scope and the scopes around it.
pub type Machine = ((ScopeOp, Option<Set<u32>>), Seq<(ScopeOp, Option<Set<u32>>)>);

pub open spec fn step(m: Machine, f: Filter, leaf: Set<u32>, universe: Set<u32>) -> Option<Machine> {
    let (cur, stack) = m;
    match f {
        Filter::And => Some(((ScopeOp::And, None), stack.push(cur))),
        Filter::Or => Some(((ScopeOp::Or, None), stack.push(cur))),
        Filter::Not => Some(((ScopeOp::Not, None), stack.push(cur))),
        Filter::End => if stack.len() == 0 {
            None
        } else {
            let parent = stack.last();
            Some(
                (
                    (parent.0, combine(parent.0, parent.1, close(cur.0, cur.1, universe))),
                    stack.drop_last(),
                ),
            )
        },
        _ => Some(((cur.0, combine(cur.0, cur.1, leaf)), stack)),
    }
}

/// The machine after the first `n` tokens, or `None` once an `End` had no
/// scope to close.
pub open spec fn run(s: Seq<Filter>, resolved: Seq<RoaringBitmap>, universe: Set<u32>, n: nat) -> Option<Machine>
    decreases n,
{
    if n == 0 || n > s.len() {
        Some(((ScopeOp::And, None), Seq::empty()))
    } else {
        match run(s, resolved, universe, (n - 1) as nat) {
            None => None,
            Some(m) => step(m, s[n - 1], leaf_set(s[n - 1], resolved[n - 1]), universe),
        }
    }
}

/// The matching documents of a filter sequence, within the considered
/// documents, or `None` for an unbalanced one.
pub open spec fn evaluation(s: Seq<Filter>, resolved: Seq<RoaringBitmap>, universe: Set<u32>) -> Option<Set<u32>> {
    match run(s, resolved, universe, s.len()) {
        Some(m) => if m.1.len() == 0 {
            Some(close(m.0.0, m.0.1, universe).intersect(universe))
        } else {
            None
        },
        None => None,
    }
}

pub open spec fn acc_view(a: Option<RoaringBitmap>) -> Option<Set<u32>> {
    match a {
        Some(b) => Some(bitmap_set(b)),
        None => None,
    }
}

pub open spec fn stack_view(st: Seq<(ScopeOp, Option<RoaringBitmap>)>) -> Seq<(ScopeOp, Option<Set<u32>>)> {
    st.map_values(|e: (ScopeOp, Option<RoaringBitmap>)| (e.0, acc_view(e.1)))
}

fn combine_acc(op: ScopeOp, acc: Option<RoaringBitmap>, x: &RoaringBitmap) -> (r: Option<RoaringBitmap>)
    ensures
        acc_view(r) == combine(op, acc_view(acc), bitmap_set(*x)),
{
    match acc {
        None => Some(bitmap_clone(x)),
        Some(a) => if op == ScopeOp::And {
            Some(bitmap_and(&a, x))
        } else {
            Some(bitmap_or(&a, x))
        },
    }
}

fn close_acc(op: ScopeOp, acc: Option<RoaringBitmap>, universe: &RoaringBitmap) -> (r: RoaringBitmap)
    ensures
        bitmap_set(r) == close(op, acc_view(acc), bitmap_set(*universe)),
{
    let a = match acc {
        Some(a) => a,
        None => bitmap_new(),
    };
    if op == ScopeOp::Not {
        bitmap_sub(universe, &a)
    } else {
        a
    }
}

/// Evaluates a filter sequence over the documents `document_ids`.
/// `resolved[i]` is the set of documents that the leaf at position `i` selects
/// through the indexes; a `DocumentSet` leaf carries its own set.
/// An unbalanced sequence is rejected.
pub fn evaluate(filters: &Vec<Filter>, resolved: &Vec<RoaringBitmap>, document_ids: RoaringBitmap) -> (r: Result<ResultSet, Error>)
    requires
        resolved@.len() == filters@.len(),
    ensures
        match r {
            Ok(rs) => balanced(filters@) && evaluation(filters@, resolved@, bitmap_set(document_ids))
                == Some(bitmap_set(rs.results)) && bitmap_set(rs.document_ids) == bitmap_set(
                document_ids,
            ),
            Err(e) => !balanced(filters@) && e is InternalError,
        },
{
    let ghost u = bitmap_set(document_ids);
    let mut cur_op = ScopeOp::And;
    let mut cur_acc: Option<RoaringBitmap> = None;
    let mut stack: Vec<(ScopeOp, Option<RoaringBitmap>)> = Vec::new();
    let mut i: usize = 0;
    assert(stack_view(stack@) =~= Seq::empty());
    while i < filters.len()
        invariant
            i <= filters@.len(),
            resolved@.len() == filters@.len(),
            bitmap_set(document_ids) == u,
            run(filters@, resolved@, u, i as nat) == Some(((cur_op, acc_view(cur_acc)), stack_view(stack@))),
        decreases filters@.len() - i,
    {
        let ghost prev_stack = stack@;
        let ghost prev = ((cur_op, acc_view(cur_acc)), stack_view(stack@));
        match &filters[i] {
            Filter::And | Filter::Or | Filter::Not => {
                let op = match &filters[i] {
                    Filter::And => ScopeOp::And,
                    Filter::Or => ScopeOp::Or,
                    _ => ScopeOp::Not,
                };
                stack.push((cur_op, cur_acc));
                cur_op = op;
                cur_acc = None;
                assert(stack_view(stack@) =~= stack_view(prev_stack).push(prev.0));
            },
            Filter::End => {
                match stack.pop() {
                    None => {
                        proof {
                            assert(stack_view(prev_stack).len() == 0);
                            assert(run(filters@, resolved@, u, (i + 1) as nat) is None);
                            lemma_run_depth(filters@, resolved@, u, (i + 1) as nat);
                        }
                        return Err(Error::InternalError("unbalanced filter".to_owned()));
                    },
                    Some(parent) => {
                        let closed = close_acc(cur_op, cur_acc, &document_ids);
                        let (pop_op, pop_acc) = parent;
                        assert(stack_view(prev_stack).last() == (pop_op, acc_view(pop_acc)));
                        assert(stack_view(stack@) =~= stack_view(prev_stack).drop_last());
                        cur_acc = combine_acc(pop_op, pop_acc, &closed);
                        cur_op = pop_op;
                    },
                }
            },
            Filter::DocumentSet(b) => {
                cur_acc = combine_acc(cur_op, cur_acc, b);
            },
            _ => {
                cur_acc = combine_acc(cur_op, cur_acc, &resolved[i]);
            },
        }
        i = i + 1;
    }
    proof {
        lemma_run_depth(filters@, resolved@, u, filters@.len());
    }
    if stack.len() != 0 {
        return Err(Error::InternalError("unbalanced filter".to_owned()));
    }
    let closed = close_acc(cur_op, cur_acc, &document_ids);
    let results = bitmap_and(&closed, &document_ids);
    Ok(ResultSet { results, document_ids })
}

/// The machine runs exactly while no prefix closes more than it opened, and
/// its stack then holds one scope per open token.
proof fn lemma_run_depth(s: Seq<Filter>, resolved: Seq<RoaringBitmap>, universe: Set<u32>, n: nat)
    requires
        n <= s.len(),
    ensures
        run(s, resolved, universe, n) is Some <==> (forall|k: nat| k <= n ==> depth(s, k) >= 0),
        run(s, resolved, universe, n) is Some ==> run(s, resolved, universe, n).unwrap().1.len()
            == depth(s, n),
    decreases n,
{
    if n > 0 {
        lemma_run_depth(s, resolved, universe, (n - 1) as nat);
        if run(s, resolved, universe, n) is Some {
            assert forall|k: nat| k <= n implies depth(s, k) >= 0 by {
                if k < n {
                    assert(run(s, resolved, universe, (n - 1) as nat) is Some);
                }
            }
        }
        if forall|k: nat| k <= n ==> depth(s, k) >= 0 {
            assert forall|k: nat| k <= (n - 1) as nat implies depth(s, k) >= 0 by {
                assert(k <= n);
            }
            assert(depth(s, n) >= 0);
        }
    }
}

/// A sequence evaluates exactly when it is balanced.
pub proof fn lemma_evaluation_defined_iff_balanced(
    s: Seq<Filter>,
    resolved: Seq<RoaringBitmap>,
    universe: Set<u32>,
)
    ensures
        evaluation(s, resolved, universe) is Some <==> balanced(s),
{
    lemma_run_depth(s, resolved, universe, s.len());
}

proof fn lemma_depth_insert_leaf(s: Seq<Filter>, i: int, x: Filter, n: nat)
    requires
        0 <= i <= s.len(),
        depth_change(x) == 0,
        n <= s.len() + 1,
    ensures
        depth(s.insert(i, x), n) == if n <= i {
            depth(s, n)
        } else {
            depth(s, (n - 1) as nat)
        },
    decreases n,
{
    if n > 0 {
        lemma_depth_insert_leaf(s, i, x, (n - 1) as nat);
        if n > i + 1 {
            assert(s.insert(i, x)[n - 1] == s[n - 2]);
        } else if n <= i {
            assert(s.insert(i, x)[n - 1] == s[n - 1]);
        }
    }
}

/// Inserting a leaf anywhere in a balanced sequence keeps it balanced.
pub proof fn lemma_insert_leaf_balanced(s: Seq<Filter>, i: int, x: Filter)
    requires
        balanced(s),
        0 <= i <= s.len(),
        depth_change(x) == 0,
    ensures
        balanced(s.insert(i, x)),
{
    let t = s.insert(i, x);
    assert forall|n: nat| n <= t.len() implies depth(t, n) >= 0 by {
        lemma_depth_insert_leaf(s, i, x, n);
        if n > i {
            assert(((n - 1) as nat) <= s.len());
        }
    }
    lemma_depth_insert_leaf(s, i, x, t.len());
}

/// `Not` over a single document set yields its complement within the
/// considered documents.
pub proof fn lemma_not_document_set(
    s: Seq<Filter>,
    resolved: Seq<RoaringBitmap>,
    b: RoaringBitmap,
    universe: Set<u32>,
)
    requires
        s.len() == 3,
        s[0] is Not,
        s[1] == Filter::DocumentSet(b),
        s[2] is End,
    ensures
        evaluation(s, resolved, universe) == Some(universe.difference(bitmap_set(b))),
{
    let top = seq![(ScopeOp::And, None::<Set<u32>>)];
    assert(run(s, resolved, universe, 0) == Some(((ScopeOp::And, None::<Set<u32>>), Seq::<(ScopeOp, Option<Set<u32>>)>::empty())));
    assert(Seq::<(ScopeOp, Option<Set<u32>>)>::empty().push((ScopeOp::And, None::<Set<u32>>)) =~= top);
    assert(run(s, resolved, universe, 1) == Some(((ScopeOp::Not, None::<Set<u32>>), seq![(ScopeOp::And, None::<Set<u32>>)])));
    assert(run(s, resolved, universe, 2) == Some(((ScopeOp::Not, Some(bitmap_set(b))), seq![(ScopeOp::And, None::<Set<u32>>)])));
    assert(seq![(ScopeOp::And, None::<Set<u32>>)].drop_last() =~= Seq::empty());
    assert(universe.difference(bitmap_set(b)).intersect(universe) =~= universe.difference(bitmap_set(b)));
}

} // verus!
