use vstd::prelude::*;
use vstd::string::StringExecFns;

use crate::compiler::{ASTNode, NodeOperation};
use crate::scanner::OperatorType;

verus! {

/// The post-order sequence of a tree: left subtree, right subtree, then the node itself.
/// A right child is visited only under a left one, as a unary node keeps its operand on the left.
pub open spec fn postfix(n: ASTNode) -> Seq<NodeOperation>
    decreases n,
{
    match n.left {
        Some(l) => {
            let rest = match n.right {
                Some(r) => postfix(*r),
                None => seq![],
            };
            postfix(*l) + rest + seq![n.op]
        },
        None => seq![n.op],
    }
}

/// Appends the post-order sequence of `node` to `output` and returns its length;
/// `start_index` is where that sequence begins in the whole program.
pub fn postorder_traversal_postfix(
    node: &Box<ASTNode>,
    output: &mut Vec<NodeOperation>,
    start_index: usize,
) -> (r: usize)
    ensures
        final(output)@ == old(output)@ + postfix(**node),
        r == postfix(**node).len(),
    decreases **node,
{
    let before = output.len();
    if let Some(child) = &node.left {
        postorder_traversal_postfix(child, output, start_index);
        if let Some(child) = &node.right {
            let w_left = output.len() - before;
            postorder_traversal_postfix(child, output, start_index.saturating_add(w_left));
        }
    }
    output.push(node.op);
    proof {
        assert(output@ =~= old(output)@ + postfix(**node));
    }
    output.len() - before
}

/// How many operands an operation takes from the stack.
pub open spec fn arity(op: NodeOperation) -> int {
    match op {
        NodeOperation::BinaryOperation(_) => 2,
        NodeOperation::UnaryOperation(_) => 1,
        _ => 0,
    }
}

fn op_backtrack_size(op: &NodeOperation) -> (r: u8)
    ensures
        r == arity(*op),
{
    match op {
        NodeOperation::Literal(_)
        | NodeOperation::VariableDeref(_)
        | NodeOperation::Subexpression
        | NodeOperation::IndexedSubexpression(_) => 0,
        NodeOperation::UnaryOperation(_) => 1,
        NodeOperation::BinaryOperation(_) => 2,
    }
}

/// Walks back from position `loc`, having taken `consumed` operations with `remaining` operands
/// still owed, and gives the number taken once nothing is owed (or the start is reached).
pub open spec fn slice_len(pf: Seq<NodeOperation>, loc: int, consumed: int, remaining: int) -> int
    decreases loc - consumed,
{
    if remaining <= 0 || consumed >= loc {
        consumed
    } else {
        slice_len(pf, loc, consumed + 1, remaining - 1 + arity(pf[loc - consumed - 1]))
    }
}

/// The length of the shortest self-contained run of operations that ends just before `loc`.
pub open spec fn backtrack_size(pf: Seq<NodeOperation>, loc: int) -> int {
    slice_len(pf, loc, 0, 1)
}

proof fn lemma_slice_len_bounds(pf: Seq<NodeOperation>, loc: int, consumed: int, remaining: int)
    requires
        0 <= consumed <= loc,
    ensures
        consumed <= slice_len(pf, loc, consumed, remaining) <= loc,
    decreases loc - consumed,
{
    if !(remaining <= 0 || consumed >= loc) {
        lemma_slice_len_bounds(
            pf,
            loc,
            consumed + 1,
            remaining - 1 + arity(pf[loc - consumed - 1]),
        );
    }
}

fn subexpression_backtrack_size(pf_list: &Vec<NodeOperation>, sub_loc: usize) -> (r: usize)
    requires
        sub_loc < pf_list@.len(),
    ensures
        r == backtrack_size(pf_list@, sub_loc as int),
        r <= sub_loc,
{
    let len = pf_list.len();
    let mut remaining: usize = 1;
    let mut consumed: usize = 0;
    proof {
        lemma_slice_len_bounds(pf_list@, sub_loc as int, 0, 1);
    }
    while remaining != 0 && consumed < sub_loc
        invariant
            consumed <= sub_loc < len,
            len == pf_list@.len(),
            remaining <= consumed + 1,
            backtrack_size(pf_list@, sub_loc as int) == slice_len(
                pf_list@,
                sub_loc as int,
                consumed as int,
                remaining as int,
            ),
        decreases sub_loc - consumed,
    {
        consumed = consumed + 1;
        let a = op_backtrack_size(&pf_list[sub_loc - consumed]);
        remaining = remaining - 1 + a as usize;
    }
    consumed
}

/// Cuts the program into groups, one for each marker position in `locs` taken in order; each
/// group is removed from the program before the next is cut, so later positions shift left.
pub open spec fn groups_from(pf: Seq<NodeOperation>, locs: Seq<usize>, removed: int) -> Seq<
    Seq<NodeOperation>,
>
    decreases locs.len(),
{
    if locs.len() == 0 {
        seq![]
    } else {
        let loc = locs[0] - removed;
        let k = backtrack_size(pf, loc);
        seq![pf.subrange(loc - k, loc)] + groups_from(
            pf.subrange(0, loc - k) + pf.subrange(loc, pf.len() as int),
            locs.drop_first(),
            removed + k,
        )
    }
}

/// The contents of a list of groups.
pub open spec fn view_groups(groups: Seq<Vec<NodeOperation>>) -> Seq<Seq<NodeOperation>> {
    groups.map_values(|g: Vec<NodeOperation>| g@)
}

/// Positions strictly increase and lie inside a program of length `len`.
pub open spec fn ascending_within(locs: Seq<usize>, len: int) -> bool {
    &&& forall|i: int, j: int| 0 <= i < j < locs.len() ==> locs[i] < locs[j]
    &&& forall|i: int| 0 <= i < locs.len() ==> locs[i] < len
}

fn subexpression_groups_impl(pf_list: Vec<NodeOperation>, locations: Vec<usize>) -> (r: Vec<
    Vec<NodeOperation>,
>)
    requires
        ascending_within(locations@, pf_list@.len() as int),
    ensures
        view_groups(r@) == groups_from(pf_list@, locations@, 0),
{
    let mut pf = pf_list;
    let mut groups: Vec<Vec<NodeOperation>> = Vec::new();
    let mut total_removed: usize = 0;
    let mut idx: usize = 0;
    proof {
        assert(locations@.subrange(0, locations@.len() as int) =~= locations@);
        assert(view_groups(groups@) =~= seq![]);
    }
    while idx < locations.len()
        invariant
            idx <= locations@.len(),
            ascending_within(locations@, pf_list@.len() as int),
            pf@.len() == pf_list@.len() - total_removed,
            idx == 0 ==> total_removed == 0,
            idx > 0 ==> total_removed <= locations@[idx - 1],
            groups_from(pf_list@, locations@, 0) == view_groups(groups@) + groups_from(
                pf@,
                locations@.subrange(idx as int, locations@.len() as int),
                total_removed as int,
            ),
        decreases locations@.len() - idx,
    {
        let ghost rest = locations@.subrange(idx as int, locations@.len() as int);
        let ghost pf0 = pf@;
        let loc = locations[idx] - total_removed;
        let k = subexpression_backtrack_size(&pf, loc);
        let mut grp: Vec<NodeOperation> = Vec::new();
        let mut i: usize = 0;
        while i < k
            invariant
                k <= loc < pf@.len(),
                i <= k,
                grp@ == pf@.subrange(loc - k, loc - k + i),
            decreases k - i,
        {
            grp.push(pf[loc - k + i]);
            i = i + 1;
            proof {
                assert(grp@ =~= pf@.subrange(loc - k, loc - k + i));
            }
        }
        let mut removed: usize = 0;
        while removed < k
            invariant
                k <= loc < pf0.len(),
                removed <= k,
                pf@ == pf0.subrange(0, loc - k) + pf0.subrange(
                    loc - k + removed,
                    pf0.len() as int,
                ),
            decreases k - removed,
        {
            pf.remove(loc - k);
            removed = removed + 1;
            proof {
                assert(pf@ =~= pf0.subrange(0, loc - k) + pf0.subrange(
                    loc - k + removed,
                    pf0.len() as int,
                ));
            }
        }
        proof {
            assert(rest[0] == locations@[idx as int]);
            assert(rest.drop_first() =~= locations@.subrange(
                idx + 1,
                locations@.len() as int,
            ));
            assert(view_groups(groups@.push(grp)) =~= view_groups(groups@).push(grp@));
        }
        groups.push(grp);
        total_removed = total_removed + k;
        idx = idx + 1;
        proof {
            assert(view_groups(groups@) + groups_from(
                pf@,
                locations@.subrange(idx as int, locations@.len() as int),
                total_removed as int,
            ) =~= view_groups(groups@).drop_last() + (seq![grp@] + groups_from(
                pf@,
                locations@.subrange(idx as int, locations@.len() as int),
                total_removed as int,
            )));
        }
    }
    proof {
        assert(view_groups(groups@) + seq![] =~= view_groups(groups@));
    }
    groups
}

/// Positions of the bare `Subexpression` markers among the first `n` operations.
pub open spec fn marker_positions(pf: Seq<NodeOperation>, n: int) -> Seq<usize>
    decreases n,
{
    if n <= 0 {
        seq![]
    } else {
        let p = marker_positions(pf, n - 1);
        if pf[n - 1] == NodeOperation::Subexpression {
            p.push((n - 1) as usize)
        } else {
            p
        }
    }
}

/// The program with the k-th bare marker (0-based) rewritten to `IndexedSubexpression(k)`.
pub open spec fn marked(pf: Seq<NodeOperation>) -> Seq<NodeOperation> {
    Seq::new(
        pf.len(),
        |i: int|
            if pf[i] == NodeOperation::Subexpression {
                NodeOperation::IndexedSubexpression(marker_positions(pf, i).len() as u32)
            } else {
                pf[i]
            },
    )
}

/// The program ends with a marker already.
pub open spec fn ends_with_marker(pf: Seq<NodeOperation>) -> bool {
    let locs = marker_positions(pf, pf.len() as int);
    locs.len() > 0 && locs.last() == pf.len() - 1
}

/// The marked program, with a marker for the whole expression added at the end when missing.
pub open spec fn program(pf: Seq<NodeOperation>) -> Seq<NodeOperation> {
    if ends_with_marker(pf) {
        marked(pf)
    } else {
        marked(pf).push(
            NodeOperation::IndexedSubexpression(
                marker_positions(pf, pf.len() as int).len() as u32,
            ),
        )
    }
}

/// The marker positions of `program(pf)`.
pub open spec fn program_locations(pf: Seq<NodeOperation>) -> Seq<usize> {
    let locs = marker_positions(pf, pf.len() as int);
    if ends_with_marker(pf) {
        locs
    } else {
        locs.push(pf.len() as usize)
    }
}

/// The groups of a tree: one per brace marker, in order, then the whole expression.
pub open spec fn groups_of(root: ASTNode) -> Seq<Seq<NodeOperation>> {
    let pf = postfix(root);
    groups_from(program(pf), program_locations(pf), 0)
}

pub proof fn lemma_marker_positions(pf: Seq<NodeOperation>, n: int)
    requires
        0 <= n <= pf.len(),
        pf.len() <= usize::MAX,
    ensures
        ascending_within(marker_positions(pf, n), n),
        marker_positions(pf, n).len() <= n,
    decreases n,
{
    if n > 0 {
        lemma_marker_positions(pf, n - 1);
    }
}

/// Splits the tree's post-order program into its groups.
pub fn subexpression_groups(node: &Box<ASTNode>) -> (r: Vec<Vec<NodeOperation>>)
    ensures
        view_groups(r@) == groups_of(**node),
{
    let mut as_list: Vec<NodeOperation> = Vec::new();
    let count = postorder_traversal_postfix(node, &mut as_list, 0);
    let ghost pf = as_list@;
    assert(pf =~= postfix(**node));
    let mut locations: Vec<usize> = Vec::new();
    let mut i: usize = 0;
    while i < count
        invariant
            count == pf.len(),
            i <= count,
            as_list@.len() == pf.len(),
            locations@ == marker_positions(pf, i as int),
            forall|j: int| 0 <= j < i ==> as_list@[j] == marked(pf)[j],
            forall|j: int| i <= j < count ==> as_list@[j] == pf[j],
        decreases count - i,
    {
        if as_list[i] == NodeOperation::Subexpression {
            proof {
                lemma_marker_positions(pf, i as int);
            }
            as_list.set(i, NodeOperation::IndexedSubexpression(locations.len() as u32));
            locations.push(i);
        }
        i = i + 1;
    }
    proof {
        lemma_marker_positions(pf, pf.len() as int);
        assert(as_list@ =~= marked(pf));
    }
    let n = locations.len();
    if !(n > 0 && locations[n - 1] == count - 1) {
        as_list.push(NodeOperation::IndexedSubexpression(n as u32));
        locations.push(count);
    }
    proof {
        assert(as_list@ =~= program(pf));
        assert(locations@ =~= program_locations(pf));
    }
    subexpression_groups_impl(as_list, locations)
}

/// Stack height after one operation.
pub open spec fn height_after(h: int, op: NodeOperation) -> int {
    match op {
        NodeOperation::BinaryOperation(_) => h - 1,
        NodeOperation::UnaryOperation(_) | NodeOperation::Subexpression => h,
        _ => h + 1,
    }
}

/// Stack height after a run of operations from an empty stack.
pub open spec fn height(ops: Seq<NodeOperation>) -> int
    decreases ops.len(),
{
    if ops.len() == 0 {
        0
    } else {
        height_after(height(ops.drop_last()), ops.last())
    }
}

/// An operation can run on a stack of height `h`, in group `k`, with `nvars` variables:
/// operands are there, the operator is one that the machine knows, a variable exists and
/// a group reference points to an earlier group.
pub open spec fn op_ok(h: int, op: NodeOperation, nvars: int, k: int) -> bool {
    match op {
        NodeOperation::BinaryOperation(o) => h >= 2 && (o is AND || o is OR),
        NodeOperation::UnaryOperation(o) => h >= 1 && o is NOT,
        NodeOperation::VariableDeref(l) => l < nvars,
        NodeOperation::IndexedSubexpression(i) => i < k,
        _ => true,
    }
}

/// Group `k` runs without underflow and leaves exactly one value.
pub open spec fn group_ok(ops: Seq<NodeOperation>, nvars: int, k: int) -> bool {
    &&& forall|j: int| 0 <= j < ops.len() ==> op_ok(height(#[trigger] ops.subrange(0, j)), ops[j], nvars, k)
    &&& height(ops) == 1
}

/// Every group is well formed and refers only to earlier groups.
pub open spec fn groups_ok(groups: Seq<Seq<NodeOperation>>, nvars: int) -> bool {
    forall|k: int| 0 <= k < groups.len() ==> group_ok(#[trigger] groups[k], nvars, k)
}

/// One step of the boolean stack machine; `out` holds the results of earlier groups.
pub open spec fn apply(stack: Seq<bool>, op: NodeOperation, values: Seq<bool>, out: Seq<bool>) -> Seq<
    bool,
> {
    match op {
        NodeOperation::Literal(v) => stack.push(v),
        NodeOperation::VariableDeref(l) => stack.push(values[l as int]),
        NodeOperation::IndexedSubexpression(i) => stack.push(out[i as int]),
        NodeOperation::BinaryOperation(o) => {
            let l = stack[stack.len() - 2];
            let r = stack[stack.len() - 1];
            stack.subrange(0, stack.len() - 2).push(if o is AND { l && r } else { l || r })
        },
        NodeOperation::UnaryOperation(_) => stack.drop_last().push(!stack.last()),
        NodeOperation::Subexpression => stack,
    }
}

/// The stack after running `ops` from an empty stack.
pub open spec fn run(ops: Seq<NodeOperation>, values: Seq<bool>, out: Seq<bool>) -> Seq<bool>
    decreases ops.len(),
{
    if ops.len() == 0 {
        seq![]
    } else {
        apply(run(ops.drop_last(), values, out), ops.last(), values, out)
    }
}

/// The value of each group, in order, under the assignment `values`.
pub open spec fn group_values(groups: Seq<Seq<NodeOperation>>, values: Seq<bool>) -> Seq<bool>
    decreases groups.len(),
{
    if groups.len() == 0 {
        seq![]
    } else {
        let prev = group_values(groups.drop_last(), values);
        prev.push(run(groups.last(), values, prev).last())
    }
}

pub proof fn lemma_group_values_len(groups: Seq<Seq<NodeOperation>>, values: Seq<bool>)
    ensures
        group_values(groups, values).len() == groups.len(),
    decreases groups.len(),
{
    if groups.len() > 0 {
        lemma_group_values_len(groups.drop_last(), values);
    }
}

/// Runs one group on the boolean stack machine.
fn evaluate_group(
    grp: &Vec<NodeOperation>,
    values: &[bool],
    out_eval: &[bool],
    k: usize,
    stack: &mut Vec<bool>,
) -> (r: bool)
    requires
        group_ok(grp@, values@.len() as int, k as int),
        k <= out_eval@.len(),
    ensures
        r == run(grp@, values@, out_eval@.subrange(0, k as int)).last(),
{
    let ghost out = out_eval@.subrange(0, k as int);
    stack.clear();
    let mut j: usize = 0;
    while j < grp.len()
        invariant
            group_ok(grp@, values@.len() as int, k as int),
            k <= out_eval@.len(),
            out == out_eval@.subrange(0, k as int),
            j <= grp@.len(),
            stack@ == run(grp@.subrange(0, j as int), values@, out),
            stack@.len() == height(grp@.subrange(0, j as int)),
        decreases grp@.len() - j,
    {
        let ghost pre = grp@.subrange(0, j as int);
        assert(op_ok(height(pre), grp@[j as int], values@.len() as int, k as int));
        assert(grp@.subrange(0, j + 1).drop_last() =~= pre);
        match grp[j] {
            NodeOperation::Literal(val) => {
                stack.push(val);
            },
            NodeOperation::VariableDeref(loc) => {
                stack.push(values[loc]);
            },
            NodeOperation::IndexedSubexpression(sub_loc) => {
                stack.push(out_eval[sub_loc as usize]);
            },
            NodeOperation::BinaryOperation(op_type) => {
                let right = stack.pop().unwrap();
                let left = stack.pop().unwrap();
                let result = match op_type {
                    OperatorType::AND => left && right,
                    _ => left || right,
                };
                stack.push(result);
            },
            NodeOperation::UnaryOperation(_) => {
                let left = stack.pop().unwrap();
                stack.push(!left);
            },
            NodeOperation::Subexpression => {},
        }
        j = j + 1;
        proof {
            assert(stack@ =~= run(grp@.subrange(0, j as int), values@, out));
        }
    }
    assert(grp@.subrange(0, grp@.len() as int) =~= grp@);
    stack.pop().unwrap()
}

/// Evaluates every group under the assignment `values`, writing group k's value to `out_eval[k]`.
pub fn evaluate(groups: &Vec<Vec<NodeOperation>>, values: &[bool], out_eval: &mut [bool])
    requires
        groups_ok(view_groups(groups@), values@.len() as int),
        groups@.len() <= old(out_eval)@.len(),
    ensures
        final(out_eval)@.len() == old(out_eval)@.len(),
        final(out_eval)@.subrange(0, groups@.len() as int) == group_values(
            view_groups(groups@),
            values@,
        ),
        final(out_eval)@.subrange(groups@.len() as int, old(out_eval)@.len() as int)
            == old(out_eval)@.subrange(groups@.len() as int, old(out_eval)@.len() as int),
{
    let ghost gs = view_groups(groups@);
    let mut operands_stack: Vec<bool> = Vec::new();
    let mut index: usize = 0;
    proof {
        assert(out_eval@.subrange(0, 0) =~= group_values(gs.subrange(0, 0), values@));
    }
    while index < groups.len()
        invariant
            gs == view_groups(groups@),
            groups_ok(gs, values@.len() as int),
            groups@.len() <= out_eval@.len(),
            out_eval@.len() == old(out_eval)@.len(),
            index <= groups@.len(),
            out_eval@.subrange(0, index as int) == group_values(gs.subrange(0, index as int), values@),
            out_eval@.subrange(groups@.len() as int, out_eval@.len() as int)
                == old(out_eval)@.subrange(groups@.len() as int, old(out_eval)@.len() as int),
        decreases groups@.len() - index,
    {
        assert(group_ok(gs[index as int], values@.len() as int, index as int));
        let result = evaluate_group(&groups[index], values, out_eval, index, &mut operands_stack);
        let ghost before = out_eval@;
        out_eval[index] = result;
        index = index + 1;
        proof {
            assert(gs.subrange(0, index as int).drop_last() =~= gs.subrange(0, index - 1));
            assert(out_eval@.subrange(0, index as int) =~= before.subrange(0, index - 1).push(result));
            assert(out_eval@.subrange(0, index as int) =~= group_values(gs.subrange(0, index as int), values@));
            assert(out_eval@.subrange(groups@.len() as int, out_eval@.len() as int)
                =~= before.subrange(groups@.len() as int, out_eval@.len() as int));
        }
    }
    assert(gs.subrange(0, groups@.len() as int) =~= gs);
}

/// The label of a literal.
pub open spec fn literal_label(v: bool) -> Seq<char> {
    if v {
        seq!['<', 'T', '>']
    } else {
        seq!['<', 'F', '>']
    }
}

/// The infix symbol of a binary operator.
pub open spec fn binary_symbol(o: OperatorType) -> Seq<char> {
    match o {
        OperatorType::AND => seq![' ', '&', ' '],
        OperatorType::OR => seq![' ', '|', ' '],
        _ => seq![],
    }
}

/// The prefix symbol of a unary operator.
pub open spec fn unary_symbol(o: OperatorType) -> Seq<char> {
    match o {
        OperatorType::NOT => seq!['!'],
        _ => seq![],
    }
}

/// One step of the text stack machine; `out` holds the labels of earlier groups.
pub open spec fn render_apply(
    stack: Seq<Seq<char>>,
    op: NodeOperation,
    vars: Seq<Seq<char>>,
    out: Seq<Seq<char>>,
) -> Seq<Seq<char>> {
    match op {
        NodeOperation::Literal(v) => stack.push(literal_label(v)),
        NodeOperation::VariableDeref(l) => stack.push(vars[l as int]),
        NodeOperation::IndexedSubexpression(i) => stack.push(out[i as int]),
        NodeOperation::BinaryOperation(o) => {
            let l = stack[stack.len() - 2];
            let r = stack[stack.len() - 1];
            stack.subrange(0, stack.len() - 2).push(
                seq!['('] + l + binary_symbol(o) + r + seq![')'],
            )
        },
        NodeOperation::UnaryOperation(o) => stack.drop_last().push(
            unary_symbol(o) + seq!['('] + stack.last() + seq![')'],
        ),
        NodeOperation::Subexpression => stack,
    }
}

/// The text stack after running `ops` from an empty stack.
pub open spec fn render_run(ops: Seq<NodeOperation>, vars: Seq<Seq<char>>, out: Seq<Seq<char>>) -> Seq<
    Seq<char>,
>
    decreases ops.len(),
{
    if ops.len() == 0 {
        seq![]
    } else {
        render_apply(render_run(ops.drop_last(), vars, out), ops.last(), vars, out)
    }
}

/// The infix label of each group, in order.
pub open spec fn group_labels(groups: Seq<Seq<NodeOperation>>, vars: Seq<Seq<char>>) -> Seq<
    Seq<char>,
>
    decreases groups.len(),
{
    if groups.len() == 0 {
        seq![]
    } else {
        let prev = group_labels(groups.drop_last(), vars);
        prev.push(render_run(groups.last(), vars, prev).last())
    }
}

/// Renders one group on the text stack machine.
fn render_group(grp: &Vec<NodeOperation>, variables: &Vec<String>, result: &Vec<String>) -> (r: String)
    requires
        group_ok(grp@, variables@.len() as int, result@.len() as int),
    ensures
        r@ == render_run(grp@, variables.deep_view(), result.deep_view()).last(),
{
    let ghost vars = variables.deep_view();
    let ghost out = result.deep_view();
    let mut stack: Vec<String> = Vec::new();
    let mut j: usize = 0;
    proof {
        assert(stack.deep_view() =~= seq![]);
    }
    while j < grp.len()
        invariant
            group_ok(grp@, variables@.len() as int, result@.len() as int),
            vars == variables.deep_view(),
            out == result.deep_view(),
            j <= grp@.len(),
            stack.deep_view() == render_run(grp@.subrange(0, j as int), vars, out),
            stack@.len() == height(grp@.subrange(0, j as int)),
        decreases grp@.len() - j,
    {
        let ghost pre = grp@.subrange(0, j as int);
        let ghost before = stack.deep_view();
        assert(op_ok(height(pre), grp@[j as int], variables@.len() as int, result@.len() as int));
        assert(grp@.subrange(0, j + 1).drop_last() =~= pre);
        proof {
            reveal_strlit("<T>");
            reveal_strlit("<F>");
            reveal_strlit(" & ");
            reveal_strlit(" | ");
            reveal_strlit("!");
            reveal_strlit("(");
            reveal_strlit(")");
        }
        match grp[j] {
            NodeOperation::Literal(val) => {
                let label = if val {
                    String::from_str("<T>")
                } else {
                    String::from_str("<F>")
                };
                assert(label@ =~= literal_label(val));
                stack.push(label);
            },
            NodeOperation::VariableDeref(loc) => {
                stack.push(variables[loc].clone());
            },
            NodeOperation::IndexedSubexpression(sub_loc) => {
                stack.push(result[sub_loc as usize].clone());
            },
            NodeOperation::BinaryOperation(op_type) => {
                let right = stack.pop().unwrap();
                let left = stack.pop().unwrap();
                let mut text = String::from_str("(");
                text.append(left.as_str());
                match op_type {
                    OperatorType::AND => text.append(" & "),
                    OperatorType::OR => text.append(" | "),
                    _ => {},
                }
                text.append(right.as_str());
                text.append(")");
                assert(text@ =~= seq!['('] + left@ + binary_symbol(op_type) + right@ + seq![')']);
                stack.push(text);
            },
            NodeOperation::UnaryOperation(op_type) => {
                let operand = stack.pop().unwrap();
                let mut text = String::new();
                match op_type {
                    OperatorType::NOT => text.append("!"),
                    _ => {},
                }
                text.append("(");
                text.append(operand.as_str());
                text.append(")");
                assert(text@ =~= unary_symbol(op_type) + seq!['('] + operand@ + seq![')']);
                stack.push(text);
            },
            NodeOperation::Subexpression => {},
        }
        j = j + 1;
        proof {
            assert(stack.deep_view() =~= render_run(grp@.subrange(0, j as int), vars, out));
        }
    }
    assert(grp@.subrange(0, grp@.len() as int) =~= grp@);
    stack.pop().unwrap()
}

/// Renders every group as an infix label; a group reference shows that group's label.
pub fn groups_to_string(groups: &Vec<Vec<NodeOperation>>, variables: &Vec<String>) -> (r: Vec<String>)
    requires
        groups_ok(view_groups(groups@), variables@.len() as int),
    ensures
        r.deep_view() == group_labels(view_groups(groups@), variables.deep_view()),
{
    let ghost gs = view_groups(groups@);
    let mut result: Vec<String> = Vec::new();
    let mut index: usize = 0;
    proof {
        assert(result.deep_view() =~= group_labels(gs.subrange(0, 0), variables.deep_view()));
    }
    while index < groups.len()
        invariant
            gs == view_groups(groups@),
            groups_ok(gs, variables@.len() as int),
            index <= groups@.len(),
            result@.len() == index,
            result.deep_view() == group_labels(gs.subrange(0, index as int), variables.deep_view()),
        decreases groups@.len() - index,
    {
        assert(group_ok(gs[index as int], variables@.len() as int, index as int));
        let label = render_group(&groups[index], variables, &result);
        let ghost before = result.deep_view();
        result.push(label);
        index = index + 1;
        proof {
            assert(gs.subrange(0, index as int).drop_last() =~= gs.subrange(0, index - 1));
            assert(result.deep_view() =~= before.push(label@));
        }
    }
    assert(gs.subrange(0, groups@.len() as int) =~= gs);
    result
}

fn group_well_formed(grp: &Vec<NodeOperation>, nvars: usize, k: usize) -> (r: bool)
    ensures
        r == group_ok(grp@, nvars as int, k as int),
{
    let len = grp.len();
    let mut h: usize = 0;
    let mut j: usize = 0;
    while j < len
        invariant
            len == grp@.len(),
            j <= len,
            h <= j,
            h == height(grp@.subrange(0, j as int)),
            forall|i: int|
                0 <= i < j ==> op_ok(
                    height(#[trigger] grp@.subrange(0, i)),
                    grp@[i],
                    nvars as int,
                    k as int,
                ),
        decreases len - j,
    {
        assert(grp@.subrange(0, j + 1).drop_last() =~= grp@.subrange(0, j as int));
        let ok = match grp[j] {
            NodeOperation::BinaryOperation(o) => h >= 2 && (o == OperatorType::AND || o
                == OperatorType::OR),
            NodeOperation::UnaryOperation(o) => h >= 1 && o == OperatorType::NOT,
            NodeOperation::VariableDeref(l) => l < nvars,
            NodeOperation::IndexedSubexpression(i) => (i as usize) < k,
            _ => true,
        };
        if !ok {
            assert(!op_ok(height(grp@.subrange(0, j as int)), grp@[j as int], nvars as int, k as int));
            return false;
        }
        match grp[j] {
            NodeOperation::BinaryOperation(_) => {
                h = h - 1;
            },
            NodeOperation::UnaryOperation(_) | NodeOperation::Subexpression => {},
            _ => {
                h = h + 1;
            },
        }
        j = j + 1;
    }
    assert(grp@.subrange(0, len as int) =~= grp@);
    h == 1
}

/// Tells whether `groups` can be evaluated and rendered with `nvars` variables.
pub fn groups_well_formed(groups: &Vec<Vec<NodeOperation>>, nvars: usize) -> (r: bool)
    ensures
        r == groups_ok(view_groups(groups@), nvars as int),
{
    let ghost gs = view_groups(groups@);
    let mut k: usize = 0;
    while k < groups.len()
        invariant
            gs == view_groups(groups@),
            k <= groups@.len(),
            forall|i: int| 0 <= i < k ==> group_ok(#[trigger] gs[i], nvars as int, i),
        decreases groups@.len() - k,
    {
        if !group_well_formed(&groups[k], nvars, k) {
            assert(!group_ok(gs[k as int], nvars as int, k as int));
            return false;
        }
        k = k + 1;
    }
    true
}

} // verus!
