use vstd::prelude::*;
use vstd::seq_lib::lemma_multiset_commutative;

use crate::compiler::{
    compiled_root, compiles, lemma_compiled_tree_ok, parse, tree_ok, ASTNode, NodeOperation,
};
use crate::scanner::TokenType;
use crate::execution::{
    arity, backtrack_size, group_ok, groups_from, groups_of, groups_ok, height,
    marked, marker_positions, op_ok, postfix, program, program_locations, slice_len,
};

verus! {

/// Operands an operation takes while the markers numbered `i` or above still wrap their operand.
pub open spec fn arity_at(op: NodeOperation, i: int) -> int {
    match op {
        NodeOperation::BinaryOperation(_) => 2,
        NodeOperation::UnaryOperation(_) | NodeOperation::Subexpression => 1,
        NodeOperation::IndexedSubexpression(j) => if j >= i {
            1
        } else {
            0
        },
        _ => 0,
    }
}

/// Stack height after `ops` from an empty stack, with markers `i` and above wrapping.
pub open spec fn hgt(ops: Seq<NodeOperation>, i: int) -> int
    decreases ops.len(),
{
    if ops.len() == 0 {
        0
    } else {
        hgt(ops.drop_last(), i) + 1 - arity_at(ops.last(), i)
    }
}

/// The operator kinds are known and variables exist.
pub open spec fn basic_ok(op: NodeOperation, nvars: int) -> bool {
    match op {
        NodeOperation::BinaryOperation(o) => o is AND || o is OR,
        NodeOperation::UnaryOperation(o) => o is NOT,
        NodeOperation::VariableDeref(l) => l < nvars,
        _ => true,
    }
}

pub open spec fn ok_at(ops: Seq<NodeOperation>, p: int, i: int, nvars: int) -> bool {
    hgt(ops.subrange(0, p), i) >= arity_at(ops[p], i) && basic_ok(ops[p], nvars)
}

/// `ops` runs from an empty stack without underflow and leaves one value.
pub open spec fn valid(ops: Seq<NodeOperation>, i: int, nvars: int) -> bool {
    &&& forall|p: int| 0 <= p < ops.len() ==> #[trigger] ok_at(ops, p, i, nvars)
    &&& hgt(ops, i) == 1
}

proof fn lemma_hgt_concat(a: Seq<NodeOperation>, b: Seq<NodeOperation>, i: int)
    ensures
        hgt(a + b, i) == hgt(a, i) + hgt(b, i),
    decreases b.len(),
{
    if b.len() == 0 {
        assert(a + b =~= a);
    } else {
        lemma_hgt_concat(a, b.drop_last(), i);
        assert((a + b).drop_last() =~= a + b.drop_last());
    }
}

proof fn lemma_hgt_same(a: Seq<NodeOperation>, b: Seq<NodeOperation>, i: int, j: int)
    requires
        a.len() == b.len(),
        forall|q: int| 0 <= q < a.len() ==> arity_at(a[q], i) == arity_at(b[q], j),
    ensures
        hgt(a, i) == hgt(b, j),
    decreases a.len(),
{
    if a.len() > 0 {
        lemma_hgt_same(a.drop_last(), b.drop_last(), i, j);
    }
}

proof fn lemma_hgt_step(l: Seq<NodeOperation>, q: int, i: int)
    requires
        0 <= q < l.len(),
    ensures
        hgt(l.subrange(0, q + 1), i) == hgt(l.subrange(0, q), i) + 1 - arity_at(l[q], i),
{
    assert(l.subrange(0, q + 1).drop_last() =~= l.subrange(0, q));
}

/// The execution's height agrees with `hgt` when no marker wraps and no bare marker is left.
proof fn lemma_height_is_hgt(x: Seq<NodeOperation>, i: int)
    requires
        forall|q: int|
            0 <= q < x.len() ==> !(x[q] is Subexpression) && !(x[q] matches NodeOperation::IndexedSubexpression(j) && j >= i),
    ensures
        height(x) == hgt(x, i),
    decreases x.len(),
{
    if x.len() > 0 {
        lemma_height_is_hgt(x.drop_last(), i);
    }
}

/// No operation of a well-formed tree's program is a numbered marker.
pub open spec fn unnumbered(pf: Seq<NodeOperation>) -> bool {
    forall|p: int| 0 <= p < pf.len() ==> !(#[trigger] pf[p] is IndexedSubexpression)
}

proof fn lemma_postfix_valid(t: ASTNode, nvars: int)
    requires
        tree_ok(t, nvars),
    ensures
        valid(postfix(t), 0, nvars),
        unnumbered(postfix(t)),
    decreases t,
{
    let pf = postfix(t);
    match t.left {
        None => {
            assert(pf.subrange(0, 0) =~= seq![]);
            assert(ok_at(pf, 0, 0, nvars));
            assert(pf.drop_last() =~= seq![]);
        },
        Some(l) => {
            let pl = postfix(*l);
            lemma_postfix_valid(*l, nvars);
            let pr = match t.right {
                Some(r) => postfix(*r),
                None => seq![],
            };
            if let Some(r) = t.right {
                lemma_postfix_valid(*r, nvars);
            } else {
                assert(hgt(pr, 0) == 0);
            }
            assert(pf =~= pl + pr + seq![t.op]);
            assert(pf.drop_last() =~= pl + pr);
            lemma_hgt_concat(pl, pr, 0);
            assert forall|p: int| 0 <= p < pf.len() implies #[trigger] ok_at(pf, p, 0, nvars) by {
                if p < pl.len() {
                    assert(pf.subrange(0, p) =~= pl.subrange(0, p));
                    assert(ok_at(pl, p, 0, nvars));
                } else if p < pl.len() + pr.len() {
                    let q = p - pl.len();
                    assert(pf.subrange(0, p) =~= pl + pr.subrange(0, q));
                    lemma_hgt_concat(pl, pr.subrange(0, q), 0);
                    assert(ok_at(pr, q, 0, nvars));
                } else {
                    assert(pf.subrange(0, p) =~= pl + pr);
                }
            }
        },
    }
}

/// Height after the first `p` operations of `l`.
pub open spec fn prefix_hgt(l: Seq<NodeOperation>, p: int, i: int) -> int {
    hgt(l.subrange(0, p), i)
}

/// Walking back from `loc` stops where the height first drops one below the height at `loc`.
proof fn lemma_walk(l: Seq<NodeOperation>, loc: int, c: int, r: int, i: int)
    requires
        0 <= c <= loc < l.len(),
        forall|q: int| 0 <= q < loc ==> arity_at(l[q], i) == arity(l[q]),
        prefix_hgt(l, loc, i) >= 1,
        r == 1 + prefix_hgt(l, loc - c, i) - prefix_hgt(l, loc, i),
        r >= 1,
    ensures
        c <= slice_len(l, loc, c, r) <= loc,
        prefix_hgt(l, loc - slice_len(l, loc, c, r), i) == prefix_hgt(l, loc, i) - 1,
        forall|p: int|
            loc - slice_len(l, loc, c, r) < p <= loc - c ==> #[trigger] prefix_hgt(l, p, i)
                >= prefix_hgt(l, loc, i),
    decreases loc - c,
{
    if c >= loc {
        assert(l.subrange(0, 0) =~= seq![]);
    } else {
        let q = loc - c - 1;
        lemma_hgt_step(l, q, i);
        let r2 = r - 1 + arity(l[q]);
        if r2 > 0 {
            lemma_walk(l, loc, c + 1, r2, i);
        }
    }
}

/// What holds between two groups are cut: `l` is the program left, `i` the next marker,
/// `removed` how many operations were cut so far.
pub open spec fn partition_inv(
    l: Seq<NodeOperation>,
    locs: Seq<usize>,
    i: int,
    removed: int,
    nvars: int,
) -> bool {
    &&& 0 <= i <= locs.len() <= u32::MAX as int + 1
    &&& 0 <= removed
    &&& forall|a: int, b: int| 0 <= a < b < locs.len() ==> locs[a] < locs[b]
    &&& valid(l, i, nvars)
    &&& forall|m: int|
        i <= m < locs.len() ==> removed <= #[trigger] locs[m] && locs[m] - removed < l.len() && l[locs[m]
            - removed] == NodeOperation::IndexedSubexpression(m as u32)
    &&& forall|p: int|
        0 <= p < l.len() ==> !(#[trigger] l[p] is Subexpression) && (l[p] matches NodeOperation::IndexedSubexpression(j) ==> (j < i || (j < locs.len() && p == locs[j as int] - removed)))
    &&& i < locs.len() ==> locs.last() - removed == l.len() - 1
}

proof fn lemma_step_group(
    l: Seq<NodeOperation>,
    locs: Seq<usize>,
    i: int,
    removed: int,
    nvars: int,
)
    requires
        partition_inv(l, locs, i, removed, nvars),
        i < locs.len(),
    ensures
        0 <= backtrack_size(l, locs[i] - removed) <= locs[i] - removed,
        group_ok(
            l.subrange(locs[i] - removed - backtrack_size(l, locs[i] - removed), locs[i] - removed),
            nvars,
            i,
        ),
        i + 1 == locs.len() ==> locs[i] - removed - backtrack_size(l, locs[i] - removed) == 0,
{
    let loc = locs[i] - removed;
    assert(l[loc] == NodeOperation::IndexedSubexpression(i as u32));
    // Before the marker, nothing wraps: later markers lie after it.
    assert forall|q: int| 0 <= q < loc implies arity_at(l[q], i) == arity(l[q]) && !(l[q] matches NodeOperation::IndexedSubexpression(j) && j >= i) by {
        assert(!(l[q] is Subexpression));
        if let NodeOperation::IndexedSubexpression(j) = l[q] {
            if j >= i {
                assert(q == locs[j as int] - removed);
                if j as int > i {
                    assert(locs[i] < locs[j as int]);
                }
            }
        }
    }
    assert(ok_at(l, loc, i, nvars));
    lemma_walk(l, loc, 0, 1, i);
    let k = backtrack_size(l, loc);
    let s = loc - k;
    let b = prefix_hgt(l, loc, i) - 1;
    let g = l.subrange(s, loc);
    // The group.
    assert forall|m: int| 0 <= m <= k implies #[trigger] prefix_hgt(l, s + m, i) == b + 1 + hgt(
        g.subrange(0, m),
        i,
    ) - 1 by {
        assert(l.subrange(0, s + m) =~= l.subrange(0, s) + g.subrange(0, m));
        lemma_hgt_concat(l.subrange(0, s), g.subrange(0, m), i);
    }
    assert forall|m: int| 0 <= m < k implies op_ok(
        height(#[trigger] g.subrange(0, m)),
        g[m],
        nvars,
        i,
    ) by {
        assert(g[m] == l[s + m]);
        lemma_height_is_hgt(g.subrange(0, m), i);
        lemma_hgt_step(l, s + m, i);
        assert(prefix_hgt(l, s + m, i) == b + hgt(g.subrange(0, m), i));
        assert(prefix_hgt(l, s + m + 1, i) >= prefix_hgt(l, loc, i));
        assert(ok_at(l, s + m, i, nvars));
    }
    lemma_height_is_hgt(g, i);
    assert(g.subrange(0, k) =~= g);
    assert(prefix_hgt(l, s + k, i) == b + hgt(g.subrange(0, k), i));
    assert(group_ok(g, nvars, i));
    // The last marker ends the program, so its group starts at the beginning.
    if i + 1 == locs.len() {
        assert(locs.last() == locs[i]);
        assert(l.subrange(0, l.len() as int) =~= l);
        lemma_hgt_step(l, loc, i);
        if s > 0 {
            lemma_hgt_step(l, s - 1, i);
            assert(ok_at(l, s - 1, i, nvars));
        }
    }
}

proof fn lemma_step_inv(l: Seq<NodeOperation>, locs: Seq<usize>, i: int, removed: int, nvars: int)
    requires
        partition_inv(l, locs, i, removed, nvars),
        i < locs.len(),
    ensures
        0 <= backtrack_size(l, locs[i] - removed) <= locs[i] - removed,
        partition_inv(
            l.subrange(0, locs[i] - removed - backtrack_size(l, locs[i] - removed)) + l.subrange(
                locs[i] - removed,
                l.len() as int,
            ),
            locs,
            i + 1,
            removed + backtrack_size(l, locs[i] - removed),
            nvars,
        ),
{
    let loc = locs[i] - removed;
    assert(l[loc] == NodeOperation::IndexedSubexpression(i as u32));
    assert forall|q: int| 0 <= q < loc implies arity_at(l[q], i) == arity(l[q]) by {
        assert(!(l[q] is Subexpression));
        if let NodeOperation::IndexedSubexpression(j) = l[q] {
            if j >= i {
                assert(q == locs[j as int] - removed);
                if j as int > i {
                    assert(locs[i] < locs[j as int]);
                }
            }
        }
    }
    // Only the marker at `loc` changes from wrapping to a leaf.
    assert forall|q: int| 0 <= q < l.len() && q != loc implies arity_at(l[q], i + 1) == arity_at(
        l[q],
        i,
    ) by {
        if let NodeOperation::IndexedSubexpression(j) = l[q] {
            if j as int == i {
                assert(q == locs[i] - removed);
            }
        }
    }
    assert(ok_at(l, loc, i, nvars));
    lemma_walk(l, loc, 0, 1, i);
    let k = backtrack_size(l, loc);
    let s = loc - k;
    let l2 = l.subrange(0, s) + l.subrange(loc, l.len() as int);
    assert(l2.len() == l.len() - k);
    assert(prefix_hgt(l, s, i) == prefix_hgt(l, loc, i) - 1);
    assert forall|p: int| 0 <= p <= l2.len() implies #[trigger] prefix_hgt(l2, p, i + 1) == (if p
        <= s {
        prefix_hgt(l, p, i)
    } else {
        prefix_hgt(l, p + k, i)
    }) by {
        if p <= s {
            assert(l2.subrange(0, p) =~= l.subrange(0, p));
            assert forall|q: int| 0 <= q < p implies arity_at(l2.subrange(0, p)[q], i + 1)
                == arity_at(l.subrange(0, p)[q], i) by {
                assert(l.subrange(0, p)[q] == l[q]);
            }
            lemma_hgt_same(l2.subrange(0, p), l.subrange(0, p), i + 1, i);
        } else {
            let t = p + k;
            assert(l2.subrange(0, p) =~= l.subrange(0, s) + l.subrange(loc, t));
            lemma_hgt_concat(l.subrange(0, s), l.subrange(loc, t), i + 1);
            assert forall|q: int| 0 <= q < s implies arity_at(l.subrange(0, s)[q], i + 1)
                == arity_at(l.subrange(0, s)[q], i) by {
                assert(l.subrange(0, s)[q] == l[q]);
            }
            lemma_hgt_same(l.subrange(0, s), l.subrange(0, s), i + 1, i);
            let tail = l.subrange(loc + 1, t);
            assert forall|q: int| 0 <= q < tail.len() implies arity_at(#[trigger] tail[q], i + 1)
                == arity_at(tail[q], i) by {
                assert(l.subrange(loc + 1, t)[q] == l[loc + 1 + q]);
            }
            assert(l.subrange(loc, t) =~= seq![l[loc]] + l.subrange(loc + 1, t));
            lemma_hgt_concat(seq![l[loc]], l.subrange(loc + 1, t), i + 1);
            lemma_hgt_concat(seq![l[loc]], l.subrange(loc + 1, t), i);
            lemma_hgt_same(l.subrange(loc + 1, t), l.subrange(loc + 1, t), i + 1, i);
            let one = seq![l[loc]];
            assert(one.drop_last() =~= Seq::<NodeOperation>::empty());
            assert(one.last() == l[loc]);
            assert(hgt(one.drop_last(), i) == 0);
            assert(hgt(one.drop_last(), i + 1) == 0);
            assert(arity_at(l[loc], i + 1) == 0);
            assert(arity_at(l[loc], i) == 1);
            assert(hgt(seq![l[loc]], i + 1) == 1);
            assert(hgt(seq![l[loc]], i) == 0);
            assert(l.subrange(0, t) =~= l.subrange(0, loc) + l.subrange(loc, t));
            lemma_hgt_concat(l.subrange(0, loc), l.subrange(loc, t), i);
            assert(hgt(l.subrange(0, s), i + 1) == prefix_hgt(l, loc, i) - 1);
            assert(hgt(l.subrange(loc, t), i + 1) == 1 + hgt(tail, i));
            assert(hgt(l.subrange(loc, t), i) == hgt(tail, i));
            assert(prefix_hgt(l, t, i) == prefix_hgt(l, loc, i) + hgt(tail, i));
            assert(prefix_hgt(l2, p, i + 1) == prefix_hgt(l, t, i));
        }
    }
    assert forall|p: int| 0 <= p < l2.len() implies #[trigger] ok_at(l2, p, i + 1, nvars) by {
        assert(prefix_hgt(l2, p, i + 1) == (if p <= s {
            prefix_hgt(l, p, i)
        } else {
            prefix_hgt(l, p + k, i)
        }));
        if p < s {
            assert(l2[p] == l[p]);
            assert(ok_at(l, p, i, nvars));
        } else if p == s {
            assert(l2[p] == l[loc]);
        } else {
            assert(l2[p] == l[p + k]);
            assert(ok_at(l, p + k, i, nvars));
        }
    }
    assert(l2.subrange(0, l2.len() as int) =~= l2);
    assert(l.subrange(0, l.len() as int) =~= l);
    assert(prefix_hgt(l2, l2.len() as int, i + 1) == prefix_hgt(l, l.len() as int, i));
    assert forall|m: int| i + 1 <= m < locs.len() implies removed + k <= #[trigger] locs[m] && locs[m]
        - (removed + k) < l2.len() && l2[locs[m] - (removed + k)]
        == NodeOperation::IndexedSubexpression(m as u32) by {
        assert(locs[i] < locs[m]);
        assert(l2[locs[m] - (removed + k)] == l[locs[m] - removed]);
    }
    assert forall|p: int| 0 <= p < l2.len() implies !(#[trigger] l2[p] is Subexpression) && (l2[p] matches NodeOperation::IndexedSubexpression(j) ==> (j < i + 1 || (j < locs.len() && p == locs[j as int] - (removed + k)))) by {
        if p < s {
            assert(l2[p] == l[p]);
            if let NodeOperation::IndexedSubexpression(j) = l[p] {
                if j >= i {
                    assert(p == locs[j as int] - removed);
                    if j as int > i {
                        assert(locs[i] < locs[j as int]);
                    }
                }
            }
        } else if p == s {
            assert(l2[p] == l[loc]);
        } else {
            assert(l2[p] == l[p + k]);
        }
    }
}

/// The m-th marker position holds a marker with m markers before it, and back.
proof fn lemma_marker_index(pf: Seq<NodeOperation>, n: int)
    requires
        0 <= n <= pf.len() <= usize::MAX,
    ensures
        forall|m: int|
            0 <= m < marker_positions(pf, n).len() ==> {
                let p = #[trigger] marker_positions(pf, n)[m] as int;
                &&& 0 <= p < n
                &&& pf[p] == NodeOperation::Subexpression
                &&& marker_positions(pf, p).len() == m
            },
        forall|p: int|
            0 <= p < n && #[trigger] pf[p] == NodeOperation::Subexpression ==> marker_positions(
                pf,
                p,
            ).len() < marker_positions(pf, n).len() && marker_positions(pf, n)[marker_positions(
                pf,
                p,
            ).len() as int] == p,
        marker_positions(pf, n).len() <= n,
    decreases n,
{
    if n > 0 {
        lemma_marker_index(pf, n - 1);
        let prev = marker_positions(pf, n - 1);
        let cur = marker_positions(pf, n);
        assert forall|m: int| 0 <= m < prev.len() implies cur[m] == prev[m] by {}
        assert forall|m: int| 0 <= m < cur.len() implies {
            let p = #[trigger] cur[m] as int;
            &&& 0 <= p < n
            &&& pf[p] == NodeOperation::Subexpression
            &&& marker_positions(pf, p).len() == m
        } by {
            if m < prev.len() {
                assert(cur[m] == prev[m]);
            }
        }
        assert forall|p: int|
            0 <= p < n && #[trigger] pf[p] == NodeOperation::Subexpression implies marker_positions(
            pf,
            p,
        ).len() < cur.len() && cur[marker_positions(pf, p).len() as int] == p by {
            if p < n - 1 {
                assert(cur[marker_positions(pf, p).len() as int] == prev[marker_positions(
                    pf,
                    p,
                ).len() as int]);
            }
        }
    }
}

proof fn lemma_program_valid(t: ASTNode, nvars: int)
    requires
        tree_ok(t, nvars),
    ensures
        valid(program(postfix(t)), 0, nvars),
        unnumbered(postfix(t)),
{
    let pf = postfix(t);
    lemma_postfix_valid(t, nvars);
    let n = pf.len() as int;
    let mp = marker_positions(pf, n);
    let mk = marked(pf);
    let l = program(pf);
    let locs = program_locations(pf);
    // Marking keeps every operation's arity.
    assert forall|q: int| 0 <= q < n implies arity_at(#[trigger] mk[q], 0) == arity_at(pf[q], 0)
        && basic_ok(mk[q], nvars) == basic_ok(pf[q], nvars) by {}
    assert forall|p: int| 0 <= p <= n implies #[trigger] prefix_hgt(mk, p, 0) == prefix_hgt(
        pf,
        p,
        0,
    ) by {
        assert forall|q: int| 0 <= q < p implies arity_at(mk.subrange(0, p)[q], 0) == arity_at(
            pf.subrange(0, p)[q],
            0,
        ) by {
            assert(mk.subrange(0, p)[q] == mk[q]);
            assert(pf.subrange(0, p)[q] == pf[q]);
        }
        lemma_hgt_same(mk.subrange(0, p), pf.subrange(0, p), 0, 0);
    }
    assert(mk.subrange(0, n) =~= mk);
    assert(pf.subrange(0, n) =~= pf);
    assert(prefix_hgt(mk, n, 0) == prefix_hgt(pf, n, 0));
    assert forall|p: int| 0 <= p < n implies #[trigger] ok_at(mk, p, 0, nvars) by {
        assert(prefix_hgt(mk, p, 0) == prefix_hgt(pf, p, 0));
        assert(ok_at(pf, p, 0, nvars));
    }
    assert(valid(mk, 0, nvars));
    if !crate::execution::ends_with_marker(pf) {
        assert(l.subrange(0, n) =~= mk);
        assert(l.drop_last() =~= mk);
        assert forall|p: int| 0 <= p < l.len() implies #[trigger] ok_at(l, p, 0, nvars) by {
            if p < n {
                assert(l.subrange(0, p) =~= mk.subrange(0, p));
                assert(ok_at(mk, p, 0, nvars));
            }
        }
        assert(locs =~= mp.push(n as usize));
    }
    assert(valid(l, 0, nvars));
}

proof fn lemma_initial_inv(t: ASTNode, nvars: int)
    requires
        tree_ok(t, nvars),
        postfix(t).len() < u32::MAX,
    ensures
        partition_inv(program(postfix(t)), program_locations(postfix(t)), 0, 0, nvars),
{
    let pf = postfix(t);
    lemma_program_valid(t, nvars);
    let n = pf.len() as int;
    let mp = marker_positions(pf, n);
    let mk = marked(pf);
    let l = program(pf);
    let locs = program_locations(pf);
    lemma_marker_index(pf, n);
    if !crate::execution::ends_with_marker(pf) {
        assert(locs =~= mp.push(n as usize));
    }
    crate::execution::lemma_marker_positions(pf, n);
    assert forall|a: int, b: int| 0 <= a < b < locs.len() implies locs[a] < locs[b] by {
        if b >= mp.len() {
            assert(locs[a] == mp[a]);
        } else {
            assert(locs[a] == mp[a] && locs[b] == mp[b]);
        }
    }
    assert forall|m: int| 0 <= m < locs.len() implies 0 <= #[trigger] locs[m] && locs[m] - 0 < l.len()
        && l[locs[m] - 0] == NodeOperation::IndexedSubexpression(m as u32) by {
        if m < mp.len() {
            assert(locs[m] == mp[m]);
            let p = mp[m] as int;
            assert(mk[p] == NodeOperation::IndexedSubexpression(marker_positions(pf, p).len() as u32));
            assert(l[p] == mk[p]);
        }
    }
    assert forall|p: int| 0 <= p < l.len() implies !(#[trigger] l[p] is Subexpression) && (l[p] matches NodeOperation::IndexedSubexpression(j) ==> (j < 0 || (j < locs.len() && p == locs[j as int] - 0))) by {
        if p < n {
            assert(l[p] == mk[p]);
            if pf[p] == NodeOperation::Subexpression {
                assert(marker_positions(pf, p).len() < mp.len());
                assert(locs[marker_positions(pf, p).len() as int] == mp[marker_positions(pf, p).len() as int]);
            }
        }
    }
}

/// Cutting the remaining groups one after another: each is well formed, and together they
/// take all of the program but its last marker.
proof fn lemma_groups_from_ok(
    l: Seq<NodeOperation>,
    locs: Seq<usize>,
    i: int,
    removed: int,
    nvars: int,
)
    requires
        partition_inv(l, locs, i, removed, nvars),
    ensures
        groups_from(l, locs.subrange(i, locs.len() as int), removed).len() == locs.len() - i,
        forall|t: int|
            0 <= t < locs.len() - i ==> group_ok(
                #[trigger] groups_from(l, locs.subrange(i, locs.len() as int), removed)[t],
                nvars,
                i + t,
            ),
        i < locs.len() ==> total_len(groups_from(l, locs.subrange(i, locs.len() as int), removed))
            == l.len() - 1,
        i < locs.len() ==> groups_from(
            l,
            locs.subrange(i, locs.len() as int),
            removed,
        ).flatten().to_multiset() == l.drop_last().to_multiset(),
    decreases locs.len() - i,
{
    let rest = locs.subrange(i, locs.len() as int);
    if i < locs.len() {
        lemma_step_group(l, locs, i, removed, nvars);
        lemma_step_inv(l, locs, i, removed, nvars);
        let loc = locs[i] - removed;
        let k = backtrack_size(l, loc);
        let l2 = l.subrange(0, loc - k) + l.subrange(loc, l.len() as int);
        assert(rest[0] == locs[i]);
        assert(rest.drop_first() =~= locs.subrange(i + 1, locs.len() as int));
        lemma_groups_from_ok(l2, locs, i + 1, removed + k, nvars);
        let g = groups_from(l, rest, removed);
        let tail = groups_from(l2, locs.subrange(i + 1, locs.len() as int), removed + k);
        assert(g =~= seq![l.subrange(loc - k, loc)] + tail);
        assert forall|t: int| 0 <= t < locs.len() - i implies group_ok(#[trigger] g[t], nvars, i + t) by {
            if t > 0 {
                assert(g[t] == tail[t - 1]);
            }
        }
        assert(g.drop_first() =~= tail);
        assert(g[0].len() == k);
        assert(total_len(g) == k + total_len(tail));
        assert(l2.len() == l.len() - k);
        if i + 1 == locs.len() {
            assert(tail.len() == 0);
            assert(total_len(tail) == 0);
            assert(locs.last() == locs[i]);
            assert(loc == l.len() - 1);
            assert(k == loc);
            assert(tail.flatten() =~= Seq::<NodeOperation>::empty());
            assert(g.flatten() =~= l.subrange(loc - k, loc) + tail.flatten());
            assert(g.flatten() =~= l.drop_last());
        } else {
            assert(total_len(tail) == l2.len() - 1);
            let a = l.subrange(0, loc - k);
            let sl = l.subrange(loc - k, loc);
            let b = l.subrange(loc, l.len() as int);
            assert(l2.drop_last() =~= a + b.drop_last());
            assert(l.drop_last() =~= a + sl + b.drop_last());
            assert(g.flatten() =~= sl + tail.flatten());
            lemma_multiset_commutative(sl, tail.flatten());
            lemma_multiset_commutative(a + sl, b.drop_last());
            lemma_multiset_commutative(a, sl);
            lemma_multiset_commutative(a, b.drop_last());
            assert(g.flatten().to_multiset() =~= l.drop_last().to_multiset());
        }
        assert(total_len(g) == l.len() - 1);
    } else {
        assert(rest.len() == 0);
    }
}

/// The sum of the lengths of a list of groups.
pub open spec fn total_len(groups: Seq<Seq<NodeOperation>>) -> int
    decreases groups.len(),
{
    if groups.len() == 0 {
        0
    } else {
        groups[0].len() + total_len(groups.drop_first())
    }
}

/// The program ends with a marker exactly when the tree's root is a subexpression.
proof fn lemma_ends_with_marker(t: ASTNode)
    requires
        postfix(t).len() <= usize::MAX,
    ensures
        crate::execution::ends_with_marker(postfix(t)) == (t.op == NodeOperation::Subexpression),
{
    let pf = postfix(t);
    let n = pf.len() as int;
    assert(pf[n - 1] == t.op);
    crate::execution::lemma_marker_positions(pf, n - 1);
    let prev = marker_positions(pf, n - 1);
    if prev.len() > 0 {
        assert(prev[prev.len() - 1] < n - 1);
    }
}

/// Every group of a well-formed tree runs on an empty stack without underflow, leaves
/// exactly one value, and refers only to earlier groups. There is one group per brace marker
/// and one for the whole expression. Taken together, in some order, the groups hold exactly
/// the numbered program without its last marker: for a root that is not a brace group, that is
/// every node of the tree, the k-th marker numbered k, so their lengths add up to the node
/// count. (Marker numbers are `u32`, hence the bound on the tree's size.)
pub proof fn lemma_groups_of_tree(t: ASTNode, nvars: int)
    requires
        tree_ok(t, nvars),
        postfix(t).len() < u32::MAX,
    ensures
        groups_ok(groups_of(t), nvars),
        groups_of(t).len() == program_locations(postfix(t)).len(),
        total_len(groups_of(t)) == postfix(t).len() - if t.op == NodeOperation::Subexpression {
            1int
        } else {
            0
        },
        groups_of(t).flatten().to_multiset() == program(postfix(t)).drop_last().to_multiset(),
        t.op != NodeOperation::Subexpression ==> program(postfix(t)).drop_last() == marked(
            postfix(t),
        ),
{
    let pf = postfix(t);
    let locs = program_locations(pf);
    lemma_initial_inv(t, nvars);
    lemma_groups_from_ok(program(pf), locs, 0, 0, nvars);
    assert(locs.subrange(0, locs.len() as int) =~= locs);
    lemma_ends_with_marker(t);
    if t.op != NodeOperation::Subexpression {
        assert(program(pf).drop_last() =~= marked(pf));
    }
    assert forall|k: int| 0 <= k < groups_of(t).len() implies group_ok(
        #[trigger] groups_of(t)[k],
        nvars,
        k,
    ) by {
        assert(group_ok(groups_from(program(pf), locs.subrange(0, locs.len() as int), 0)[k], nvars, 0 + k));
    }
}

/// A compiled expression's groups can be evaluated and rendered with its variable table.
pub proof fn lemma_compiled_groups_ok(toks: Seq<(Seq<char>, TokenType)>)
    requires
        compiles(toks),
        postfix(compiled_root(toks)).len() < u32::MAX,
    ensures
        groups_ok(groups_of(compiled_root(toks)), parse(toks).state.vars.len() as int),
{
    lemma_compiled_tree_ok(toks);
    lemma_groups_of_tree(compiled_root(toks), parse(toks).state.vars.len() as int);
}

} // verus!
