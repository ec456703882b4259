use vstd::prelude::*;

use crate::scanner::{eof_lexeme, eof_token, token_views, OperatorType, Token, TokenType};

verus! {

/// The operation that an AST node performs.
#[derive(Clone, Copy, Debug, PartialEq, Eq, Structural)]
pub enum NodeOperation {
    BinaryOperation(OperatorType),
    UnaryOperation(OperatorType),
    VariableDeref(usize),
    Literal(bool),
    Subexpression,
    IndexedSubexpression(u32),
}

/// A node of the syntax tree; a unary node keeps its operand on the left.
#[derive(Debug)]
pub struct ASTNode {
    pub op: NodeOperation,
    pub left: Option<Box<ASTNode>>,
    pub right: Option<Box<ASTNode>>,
}

pub open spec fn leaf(op: NodeOperation) -> ASTNode {
    ASTNode { op, left: None, right: None }
}

impl ASTNode {
    fn create(op: NodeOperation) -> (r: ASTNode)
        ensures
            r == leaf(op),
    {
        ASTNode { op, left: None, right: None }
    }
}

/// The outcome of compiling a token sequence: an error token or a tree, and the variables.
pub struct CompiledSyntaxBTree<'a> {
    pub error_token: Option<Token<'a>>,
    pub root: Option<Box<ASTNode>>,
    pub variables: Vec<String>,
}

/// The operators that take part in parsing: AND, OR and NOT.
pub open spec fn has_precedence(op: OperatorType) -> bool {
    op is AND || op is OR || op is NOT
}

/// Binding strength; higher binds tighter.
pub open spec fn precedence(op: OperatorType) -> int {
    match op {
        OperatorType::NOT => 6,
        OperatorType::AND => 4,
        OperatorType::OR => 2,
        _ => 0,
    }
}

/// How many operands an operator takes from the operand stack.
pub open spec fn operand_count(op: OperatorType) -> int {
    match op {
        OperatorType::AND | OperatorType::OR => 2,
        OperatorType::NOT => 1,
        _ => 0,
    }
}

/// The node that reducing `op` builds from the top of the operand stack, if there are enough.
pub open spec fn operation_node(nodes: Seq<ASTNode>, op: OperatorType) -> Option<ASTNode> {
    match op {
        OperatorType::AND | OperatorType::OR => if nodes.len() >= 2 {
            Some(
                ASTNode {
                    op: NodeOperation::BinaryOperation(op),
                    left: Some(Box::new(nodes[nodes.len() - 2])),
                    right: Some(Box::new(nodes[nodes.len() - 1])),
                },
            )
        } else {
            None
        },
        OperatorType::NOT => if nodes.len() >= 1 {
            Some(
                ASTNode {
                    op: NodeOperation::UnaryOperation(op),
                    left: Some(Box::new(nodes[nodes.len() - 1])),
                    right: None,
                },
            )
        } else {
            None
        },
        _ => None,
    }
}

/// The operand stack after reducing `op`, or `None` when operands are missing.
pub open spec fn reduce(nodes: Seq<ASTNode>, op: OperatorType) -> Option<Seq<ASTNode>> {
    match operation_node(nodes, op) {
        Some(n) => Some(nodes.subrange(0, nodes.len() - operand_count(op)).push(n)),
        None => None,
    }
}

/// Every operator waiting on the pending stack has a precedence.
pub open spec fn pending_ok(pending: Seq<TokenType>) -> bool {
    forall|i: int|
        0 <= i < pending.len() && (#[trigger] pending[i]) is Operator ==> has_precedence(
            pending[i]->Operator_0,
        )
}

/// Reduces the pending operators that bind strictly tighter than `cur`.
pub open spec fn reduce_higher(nodes: Seq<ASTNode>, pending: Seq<TokenType>, cur: OperatorType) -> Option<
    (Seq<ASTNode>, Seq<TokenType>),
>
    decreases pending.len(),
{
    if pending.len() > 0 && pending.last() is Operator && precedence(cur) < precedence(
        pending.last()->Operator_0,
    ) {
        match reduce(nodes, pending.last()->Operator_0) {
            Some(n2) => reduce_higher(n2, pending.drop_last(), cur),
            None => None,
        }
    } else {
        Some((nodes, pending))
    }
}

/// Wraps the top operand in a `Subexpression` node unless it already is one.
pub open spec fn wrap_subexpression(nodes: Seq<ASTNode>) -> Seq<ASTNode> {
    if nodes.len() > 0 && nodes.last().op != NodeOperation::Subexpression {
        nodes.drop_last().push(
            ASTNode {
                op: NodeOperation::Subexpression,
                left: Some(Box::new(nodes.last())),
                right: None,
            },
        )
    } else {
        nodes
    }
}

/// Reduces pending operators down to the bracket that `closer` matches
/// (for the end of input: down to an empty stack).
pub open spec fn close(nodes: Seq<ASTNode>, pending: Seq<TokenType>, closer: TokenType) -> Option<
    (Seq<ASTNode>, Seq<TokenType>),
>
    decreases pending.len(),
{
    if pending.len() == 0 {
        if closer is EOF {
            Some((nodes, pending))
        } else {
            None
        }
    } else {
        match pending.last() {
            TokenType::Operator(op) => match reduce(nodes, op) {
                Some(n2) => close(n2, pending.drop_last(), closer),
                None => None,
            },
            TokenType::LeftParen => if closer is RightParen {
                Some((nodes, pending.drop_last()))
            } else {
                None
            },
            TokenType::LeftBrace => if closer is RightBrace {
                Some((wrap_subexpression(nodes), pending.drop_last()))
            } else {
                None
            },
            _ => None,
        }
    }
}

/// Index of the first occurrence of `name` in `vars` at or after `j`, or `vars.len()`.
pub open spec fn find_from(vars: Seq<Seq<char>>, name: Seq<char>, j: int) -> int
    decreases vars.len() - j,
{
    if j < 0 || j >= vars.len() {
        vars.len() as int
    } else if vars[j] == name {
        j
    } else {
        find_from(vars, name, j + 1)
    }
}

/// Index of `name` in the variable table, or the table's length when it is absent.
pub open spec fn var_index(vars: Seq<Seq<char>>, name: Seq<char>) -> int {
    find_from(vars, name, 0)
}

/// The variable table after `name` is seen.
pub open spec fn interned(vars: Seq<Seq<char>>, name: Seq<char>) -> Seq<Seq<char>> {
    if var_index(vars, name) < vars.len() {
        vars
    } else {
        vars.push(name)
    }
}

/// The parser's state between two tokens; `after_operand` holds when the last token ended an
/// operand (a variable, a literal or a closing bracket), so that a binary operator has a left
/// operand.
pub struct ParseState {
    pub nodes: Seq<ASTNode>,
    pub pending: Seq<TokenType>,
    pub vars: Seq<Seq<char>>,
    pub after_operand: bool,
}

pub open spec fn initial_state() -> ParseState {
    ParseState { nodes: seq![], pending: seq![], vars: seq![], after_operand: false }
}

/// A binary operator.
pub open spec fn is_binary(op: OperatorType) -> bool {
    op is AND || op is OR
}

/// The state after one token, or `None` when the token is an error: a malformed token, a
/// binary operator without a left operand, missing operands, or a mismatched bracket.
pub open spec fn step(st: ParseState, kind: TokenType, lexeme: Seq<char>) -> Option<ParseState> {
    match kind {
        TokenType::Error => None,
        TokenType::LeftParen | TokenType::LeftBrace => Some(
            ParseState { pending: st.pending.push(kind), after_operand: false, ..st },
        ),
        TokenType::Variable => Some(
            ParseState {
                nodes: st.nodes.push(
                    leaf(NodeOperation::VariableDeref(var_index(st.vars, lexeme) as usize)),
                ),
                vars: interned(st.vars, lexeme),
                after_operand: true,
                ..st
            },
        ),
        TokenType::Literal(v) => Some(
            ParseState {
                nodes: st.nodes.push(leaf(NodeOperation::Literal(v))),
                after_operand: true,
                ..st
            },
        ),
        TokenType::Operator(op) => if !has_precedence(op) || (is_binary(op) && !st.after_operand) {
            None
        } else {
            match reduce_higher(st.nodes, st.pending, op) {
                Some((n2, p2)) => Some(
                    ParseState { nodes: n2, pending: p2.push(kind), vars: st.vars, after_operand: false },
                ),
                None => None,
            }
        },
        _ => match close(st.nodes, st.pending, kind) {
            Some((n2, p2)) => Some(
                ParseState { nodes: n2, pending: p2, vars: st.vars, after_operand: true },
            ),
            None => None,
        },
    }
}

/// Where parsing from token `i` on ends: the last state reached and the failing token, if any.
pub struct ParseOutcome {
    pub state: ParseState,
    pub failed_at: Option<int>,
}

pub open spec fn parse_from(st: ParseState, toks: Seq<(Seq<char>, TokenType)>, i: int) -> ParseOutcome
    decreases toks.len() - i,
{
    if i < 0 || i >= toks.len() {
        ParseOutcome { state: st, failed_at: None }
    } else {
        match step(st, toks[i].1, toks[i].0) {
            Some(s2) => parse_from(s2, toks, i + 1),
            None => ParseOutcome { state: st, failed_at: Some(i) },
        }
    }
}

/// Parsing ran through every token.
pub open spec fn parse(toks: Seq<(Seq<char>, TokenType)>) -> ParseOutcome {
    parse_from(initial_state(), toks, 0)
}

/// A finished state holds exactly one tree and no pending operator or bracket.
pub open spec fn completes(st: ParseState) -> bool {
    st.pending.len() == 0 && st.nodes.len() == 1
}

/// Compilation of `toks` succeeds.
pub open spec fn compiles(toks: Seq<(Seq<char>, TokenType)>) -> bool {
    parse(toks).failed_at is None && completes(parse(toks).state)
}

/// The tree that compiling `toks` yields, when it succeeds.
pub open spec fn compiled_root(toks: Seq<(Seq<char>, TokenType)>) -> ASTNode {
    parse(toks).state.nodes[0]
}

/// What `compile` returns for `toks`.
pub open spec fn compile_result<'a>(toks: Seq<Token<'a>>, r: CompiledSyntaxBTree<'a>) -> bool {
    let out = parse(token_views(toks));
    &&& r.variables.deep_view() == out.state.vars
    &&& match out.failed_at {
        Some(i) => r.error_token == Some(toks[i]) && r.root is None,
        None => if completes(out.state) {
            r.error_token is None && r.root == Some(Box::new(out.state.nodes[0]))
        } else {
            r.root is None && r.error_token is Some && r.error_token->Some_0@ == (
                eof_lexeme(),
                TokenType::EOF,
            )
        },
    }
}

/// Parsing fails, if at all, at one of the tokens.
pub proof fn lemma_failure_in_range(st: ParseState, toks: Seq<(Seq<char>, TokenType)>, i: int)
    requires
        0 <= i,
    ensures
        parse_from(st, toks, i).failed_at matches Some(j) ==> i <= j < toks.len(),
    decreases toks.len() - i,
{
    if i < toks.len() {
        if let Some(s2) = step(st, toks[i].1, toks[i].0) {
            lemma_failure_in_range(s2, toks, i + 1);
        }
    }
}

/// A well-formed tree over `nvars` variables: binary nodes (AND, OR) have two children, unary
/// nodes (NOT) and subexpressions one on the left, leaves none, and variables exist.
pub open spec fn tree_ok(n: ASTNode, nvars: int) -> bool
    decreases n,
{
    match n.op {
        NodeOperation::BinaryOperation(o) => (o is AND || o is OR) && match (n.left, n.right) {
            (Some(l), Some(r)) => tree_ok(*l, nvars) && tree_ok(*r, nvars),
            _ => false,
        },
        NodeOperation::UnaryOperation(o) => o is NOT && n.right is None && match n.left {
            Some(l) => tree_ok(*l, nvars),
            None => false,
        },
        NodeOperation::Subexpression => n.right is None && match n.left {
            Some(l) => tree_ok(*l, nvars),
            None => false,
        },
        NodeOperation::VariableDeref(v) => v < nvars && n.left is None && n.right is None,
        NodeOperation::Literal(_) => n.left is None && n.right is None,
        NodeOperation::IndexedSubexpression(_) => false,
    }
}

/// Every operand on the stack is a well-formed tree over the variables seen so far.
pub open spec fn nodes_ok(nodes: Seq<ASTNode>, nvars: int) -> bool {
    forall|j: int| 0 <= j < nodes.len() ==> tree_ok(#[trigger] nodes[j], nvars)
}

proof fn lemma_tree_ok_mono(n: ASTNode, a: int, b: int)
    requires
        tree_ok(n, a),
        a <= b,
    ensures
        tree_ok(n, b),
    decreases n,
{
    if let Some(l) = n.left {
        lemma_tree_ok_mono(*l, a, b);
    }
    if let Some(r) = n.right {
        lemma_tree_ok_mono(*r, a, b);
    }
}

proof fn lemma_reduce_ok(nodes: Seq<ASTNode>, op: OperatorType, nvars: int)
    requires
        nodes_ok(nodes, nvars),
    ensures
        reduce(nodes, op) matches Some(n2) ==> nodes_ok(n2, nvars),
{
    if let Some(n) = operation_node(nodes, op) {
        let n2 = nodes.subrange(0, nodes.len() - operand_count(op)).push(n);
        assert forall|j: int| 0 <= j < n2.len() implies tree_ok(#[trigger] n2[j], nvars) by {
            if j < n2.len() - 1 {
                assert(n2[j] == nodes[j]);
            } else {
                assert(tree_ok(nodes[nodes.len() - 1], nvars));
                if operand_count(op) == 2 {
                    assert(tree_ok(nodes[nodes.len() - 2], nvars));
                }
            }
        }
    }
}

proof fn lemma_reduce_higher_ok(
    nodes: Seq<ASTNode>,
    pending: Seq<TokenType>,
    cur: OperatorType,
    nvars: int,
)
    requires
        nodes_ok(nodes, nvars),
    ensures
        reduce_higher(nodes, pending, cur) matches Some((n2, _)) ==> nodes_ok(n2, nvars),
    decreases pending.len(),
{
    if pending.len() > 0 && pending.last() is Operator && precedence(cur) < precedence(
        pending.last()->Operator_0,
    ) {
        lemma_reduce_ok(nodes, pending.last()->Operator_0, nvars);
        if let Some(n2) = reduce(nodes, pending.last()->Operator_0) {
            lemma_reduce_higher_ok(n2, pending.drop_last(), cur, nvars);
        }
    }
}

proof fn lemma_close_ok(nodes: Seq<ASTNode>, pending: Seq<TokenType>, closer: TokenType, nvars: int)
    requires
        nodes_ok(nodes, nvars),
    ensures
        close(nodes, pending, closer) matches Some((n2, _)) ==> nodes_ok(n2, nvars),
    decreases pending.len(),
{
    if pending.len() > 0 {
        match pending.last() {
            TokenType::Operator(op) => {
                lemma_reduce_ok(nodes, op, nvars);
                if let Some(n2) = reduce(nodes, op) {
                    lemma_close_ok(n2, pending.drop_last(), closer, nvars);
                }
            },
            TokenType::LeftBrace => {
                let w = wrap_subexpression(nodes);
                assert forall|j: int| 0 <= j < w.len() implies tree_ok(#[trigger] w[j], nvars) by {
                    if j < nodes.len() - 1 {
                        assert(w[j] == nodes[j]);
                    } else {
                        assert(tree_ok(nodes[nodes.len() - 1], nvars));
                    }
                }
            },
            _ => {},
        }
    }
}

proof fn lemma_find_from_bound(vars: Seq<Seq<char>>, name: Seq<char>, j: int)
    requires
        0 <= j,
    ensures
        0 <= find_from(vars, name, j) <= vars.len(),
    decreases vars.len() - j,
{
    if j < vars.len() && vars[j] != name {
        lemma_find_from_bound(vars, name, j + 1);
    }
}

proof fn lemma_step_ok(st: ParseState, kind: TokenType, lexeme: Seq<char>)
    requires
        nodes_ok(st.nodes, st.vars.len() as int),
    ensures
        step(st, kind, lexeme) matches Some(s2) ==> nodes_ok(s2.nodes, s2.vars.len() as int)
            && st.vars.len() <= s2.vars.len(),
{
    match kind {
        TokenType::Variable => {
            lemma_find_from_bound(st.vars, lexeme, 0);
            let vars2 = interned(st.vars, lexeme);
            let n2 = st.nodes.push(
                leaf(NodeOperation::VariableDeref(var_index(st.vars, lexeme) as usize)),
            );
            assert forall|j: int| 0 <= j < n2.len() implies tree_ok(
                #[trigger] n2[j],
                vars2.len() as int,
            ) by {
                if j < st.nodes.len() {
                    assert(n2[j] == st.nodes[j]);
                    lemma_tree_ok_mono(st.nodes[j], st.vars.len() as int, vars2.len() as int);
                }
            }
        },
        TokenType::Literal(v) => {
            let n2 = st.nodes.push(leaf(NodeOperation::Literal(v)));
            assert forall|j: int| 0 <= j < n2.len() implies tree_ok(
                #[trigger] n2[j],
                st.vars.len() as int,
            ) by {
                if j < st.nodes.len() {
                    assert(n2[j] == st.nodes[j]);
                }
            }
        },
        TokenType::Operator(op) => {
            lemma_reduce_higher_ok(st.nodes, st.pending, op, st.vars.len() as int);
        },
        TokenType::Error | TokenType::LeftParen | TokenType::LeftBrace => {},
        _ => {
            lemma_close_ok(st.nodes, st.pending, kind, st.vars.len() as int);
        },
    }
}

proof fn lemma_parse_from_ok(st: ParseState, toks: Seq<(Seq<char>, TokenType)>, i: int)
    requires
        nodes_ok(st.nodes, st.vars.len() as int),
    ensures
        nodes_ok(parse_from(st, toks, i).state.nodes, parse_from(st, toks, i).state.vars.len() as int),
    decreases toks.len() - i,
{
    if 0 <= i < toks.len() {
        lemma_step_ok(st, toks[i].1, toks[i].0);
        if let Some(s2) = step(st, toks[i].1, toks[i].0) {
            lemma_parse_from_ok(s2, toks, i + 1);
        }
    }
}

/// A tree that compilation yields is well formed over its variable table.
pub proof fn lemma_compiled_tree_ok(toks: Seq<(Seq<char>, TokenType)>)
    requires
        compiles(toks),
    ensures
        tree_ok(compiled_root(toks), parse(toks).state.vars.len() as int),
{
    lemma_parse_from_ok(initial_state(), toks, 0);
}

/// Compiling nothing but the end-of-input token fails: there is no expression to build.
pub proof fn lemma_only_eof_does_not_compile(toks: Seq<(Seq<char>, TokenType)>)
    requires
        toks.len() == 1,
        toks[0].1 == TokenType::EOF,
    ensures
        !compiles(toks),
{
    let st = initial_state();
    assert(close(st.nodes, st.pending, TokenType::EOF) == Some((st.nodes, st.pending)));
    let s2 = ParseState { nodes: st.nodes, pending: st.pending, vars: st.vars, after_operand: true };
    assert(step(st, toks[0].1, toks[0].0) == Some(s2));
    assert(parse_from(s2, toks, 1) == ParseOutcome { state: s2, failed_at: None });
}

/// One token's effect on the stack of open brackets: an opener is pushed, a closer pops the
/// opener of its own kind, and a closer that finds another kind or none fails.
pub open spec fn bracket_step(open: Seq<TokenType>, kind: TokenType) -> Option<Seq<TokenType>> {
    match kind {
        TokenType::LeftParen | TokenType::LeftBrace => Some(open.push(kind)),
        TokenType::RightParen => if open.len() > 0 && open.last() is LeftParen {
            Some(open.drop_last())
        } else {
            None
        },
        TokenType::RightBrace => if open.len() > 0 && open.last() is LeftBrace {
            Some(open.drop_last())
        } else {
            None
        },
        _ => Some(open),
    }
}

/// The open brackets after the first `n` tokens, or `None` once a closer fails to match.
pub open spec fn bracket_stack(toks: Seq<(Seq<char>, TokenType)>, n: int) -> Option<Seq<TokenType>>
    decreases n,
{
    if n <= 0 {
        Some(seq![])
    } else {
        match bracket_stack(toks, n - 1) {
            Some(open) => bracket_step(open, toks[n - 1].1),
            None => None,
        }
    }
}

/// The opening brackets waiting on the pending stack, bottom first.
pub open spec fn open_brackets(pending: Seq<TokenType>) -> Seq<TokenType>
    decreases pending.len(),
{
    if pending.len() == 0 {
        seq![]
    } else if pending.last() is LeftParen || pending.last() is LeftBrace {
        open_brackets(pending.drop_last()).push(pending.last())
    } else {
        open_brackets(pending.drop_last())
    }
}

proof fn lemma_reduce_higher_brackets(nodes: Seq<ASTNode>, pending: Seq<TokenType>, cur: OperatorType)
    ensures
        reduce_higher(nodes, pending, cur) matches Some((_, p2)) ==> open_brackets(p2)
            == open_brackets(pending),
    decreases pending.len(),
{
    if pending.len() > 0 && pending.last() is Operator && precedence(cur) < precedence(
        pending.last()->Operator_0,
    ) {
        if let Some(n2) = reduce(nodes, pending.last()->Operator_0) {
            lemma_reduce_higher_brackets(n2, pending.drop_last(), cur);
        }
    }
}

proof fn lemma_close_brackets(nodes: Seq<ASTNode>, pending: Seq<TokenType>, closer: TokenType)
    requires
        closer is RightParen || closer is RightBrace || closer is EOF,
    ensures
        close(nodes, pending, closer) matches Some((_, p2)) ==> bracket_step(
            open_brackets(pending),
            closer,
        ) == Some(open_brackets(p2)),
    decreases pending.len(),
{
    if pending.len() > 0 {
        match pending.last() {
            TokenType::Operator(op) => {
                if let Some(n2) = reduce(nodes, op) {
                    lemma_close_brackets(n2, pending.drop_last(), closer);
                }
            },
            TokenType::LeftParen | TokenType::LeftBrace => {
                assert(open_brackets(pending).drop_last() =~= open_brackets(pending.drop_last()));
            },
            _ => {},
        }
    }
}

proof fn lemma_parse_from_brackets(st: ParseState, toks: Seq<(Seq<char>, TokenType)>, i: int)
    requires
        0 <= i <= toks.len(),
        bracket_stack(toks, i) == Some(open_brackets(st.pending)),
        forall|j: int| 0 <= j <= i ==> (#[trigger] bracket_stack(toks, j)) is Some,
    ensures
        parse_from(st, toks, i).failed_at is None ==> (forall|j: int|
            0 <= j <= toks.len() ==> (#[trigger] bracket_stack(toks, j)) is Some) && bracket_stack(
            toks,
            toks.len() as int,
        ) == Some(open_brackets(parse_from(st, toks, i).state.pending)),
    decreases toks.len() - i,
{
    if i < toks.len() {
        let kind = toks[i].1;
        if let Some(s2) = step(st, kind, toks[i].0) {
            match kind {
                TokenType::Operator(op) => {
                    lemma_reduce_higher_brackets(st.nodes, st.pending, op);
                    let p2 = reduce_higher(st.nodes, st.pending, op)->Some_0.1;
                    assert(p2.push(kind).drop_last() =~= p2);
                },
                TokenType::LeftParen | TokenType::LeftBrace => {
                    assert(st.pending.push(kind).drop_last() =~= st.pending);
                },
                TokenType::RightParen | TokenType::RightBrace | TokenType::EOF => {
                    lemma_close_brackets(st.nodes, st.pending, kind);
                },
                _ => {},
            }
            assert(bracket_stack(toks, i + 1) == Some(open_brackets(s2.pending)));
            lemma_parse_from_brackets(s2, toks, i + 1);
        }
    }
}

/// A token sequence that compiles has its brackets properly nested by kind: every closer
/// matches the innermost open bracket, of its own kind, and none is left open.
pub proof fn lemma_compiled_brackets_balanced(toks: Seq<(Seq<char>, TokenType)>)
    requires
        compiles(toks),
    ensures
        forall|n: int| 0 <= n <= toks.len() ==> (#[trigger] bracket_stack(toks, n)) is Some,
        bracket_stack(toks, toks.len() as int) == Some(Seq::<TokenType>::empty()),
{
    lemma_parse_from_brackets(initial_state(), toks, 0);
    assert(open_brackets(Seq::<TokenType>::empty()) =~= Seq::<TokenType>::empty());
}

fn stash_prev_op(current_op: OperatorType, target_op: OperatorType) -> (r: bool)
    requires
        has_precedence(current_op),
        has_precedence(target_op),
    ensures
        r == (precedence(current_op) < precedence(target_op)),
{
    let current: u16 = match current_op {
        OperatorType::NOT => 6,
        OperatorType::AND => 4,
        _ => 2,
    };
    let target: u16 = match target_op {
        OperatorType::NOT => 6,
        OperatorType::AND => 4,
        _ => 2,
    };
    current < target
}

fn create_operation_node(node_stack: &mut Vec<ASTNode>, op: OperatorType) -> (r: Result<
    ASTNode,
    (),
>)
    ensures
        match operation_node(old(node_stack)@, op) {
            Some(n) => r == Ok::<ASTNode, ()>(n) && final(node_stack)@ == old(node_stack)@.subrange(
                0,
                old(node_stack)@.len() - operand_count(op),
            ),
            None => r is Err,
        },
{
    match op {
        OperatorType::AND | OperatorType::OR => {
            let right = node_stack.pop();
            let left = node_stack.pop();
            match (left, right) {
                (Some(l), Some(r)) => {
                    proof {
                        assert(node_stack@ =~= old(node_stack)@.subrange(
                            0,
                            old(node_stack)@.len() - 2,
                        ));
                    }
                    Ok(
                        ASTNode {
                            op: NodeOperation::BinaryOperation(op),
                            left: Some(Box::new(l)),
                            right: Some(Box::new(r)),
                        },
                    )
                },
                _ => Err(()),
            }
        },
        OperatorType::NOT => {
            match node_stack.pop() {
                Some(l) => Ok(
                    ASTNode {
                        op: NodeOperation::UnaryOperation(op),
                        left: Some(Box::new(l)),
                        right: None,
                    },
                ),
                None => Err(()),
            }
        },
        _ => Err(()),
    }
}

fn peek_stack<T>(stack: &Vec<T>) -> (r: &T)
    requires
        stack@.len() > 0,
    ensures
        *r == stack@.last(),
{
    &stack[stack.len() - 1]
}

/// Reduces the pending operators that bind strictly tighter than `cur`.
fn reduce_pending(nodes: &mut Vec<ASTNode>, pending: &mut Vec<TokenType>, cur: OperatorType) -> (ok:
    bool)
    requires
        has_precedence(cur),
        pending_ok(old(pending)@),
    ensures
        match reduce_higher(old(nodes)@, old(pending)@, cur) {
            Some((n2, p2)) => ok && final(nodes)@ == n2 && final(pending)@ == p2,
            None => !ok,
        },
        pending_ok(final(pending)@),
{
    while pending.len() > 0
        invariant
            has_precedence(cur),
            pending_ok(pending@),
            reduce_higher(old(nodes)@, old(pending)@, cur) == reduce_higher(nodes@, pending@, cur),
        decreases pending.len(),
    {
        let top = *peek_stack(pending);
        match top {
            TokenType::Operator(target) => {
                assert(pending@[pending@.len() - 1] is Operator);
                if !stash_prev_op(cur, target) {
                    return true;
                }
                match create_operation_node(nodes, target) {
                    Ok(n) => {
                        nodes.push(n);
                        pending.pop();
                    },
                    Err(_) => {
                        return false;
                    },
                }
            },
            _ => {
                return true;
            },
        }
    }
    true
}

/// Reduces pending operators down to the bracket that `closer` matches.
fn close_pending(nodes: &mut Vec<ASTNode>, pending: &mut Vec<TokenType>, closer: TokenType) -> (ok:
    bool)
    requires
        pending_ok(old(pending)@),
    ensures
        match close(old(nodes)@, old(pending)@, closer) {
            Some((n2, p2)) => ok && final(nodes)@ == n2 && final(pending)@ == p2,
            None => !ok,
        },
        pending_ok(final(pending)@),
{
    while pending.len() > 0
        invariant
            pending_ok(pending@),
            close(old(nodes)@, old(pending)@, closer) == close(nodes@, pending@, closer),
        decreases pending.len(),
    {
        let top = *peek_stack(pending);
        match top {
            TokenType::Operator(op) => {
                match create_operation_node(nodes, op) {
                    Ok(n) => {
                        nodes.push(n);
                        pending.pop();
                    },
                    Err(_) => {
                        return false;
                    },
                }
            },
            TokenType::LeftParen => {
                if closer == TokenType::RightParen {
                    pending.pop();
                    return true;
                }
                return false;
            },
            TokenType::LeftBrace => {
                if closer == TokenType::RightBrace {
                    pending.pop();
                    // Directly nested braces share one subexpression node.
                    if nodes.len() > 0 && nodes[nodes.len() - 1].op != NodeOperation::Subexpression {
                        let inner = nodes.pop().unwrap();
                        nodes.push(
                            ASTNode {
                                op: NodeOperation::Subexpression,
                                left: Some(Box::new(inner)),
                                right: None,
                            },
                        );
                    }
                    return true;
                }
                return false;
            },
            _ => {
                return false;
            },
        }
    }
    closer == TokenType::EOF
}

/// Looks `name` up in the variable table, adding it at the end when it is new.
fn intern(variables: &mut Vec<String>, name: &str) -> (loc: usize)
    ensures
        loc == var_index(old(variables).deep_view(), name@),
        final(variables).deep_view() == interned(old(variables).deep_view(), name@),
{
    let owned: String = name.to_owned();
    let ghost vars = variables.deep_view();
    let mut j: usize = 0;
    while j < variables.len()
        invariant
            j <= variables.len(),
            vars == variables.deep_view(),
            owned@ == name@,
            var_index(vars, name@) == find_from(vars, name@, j as int),
        decreases variables.len() - j,
    {
        if variables[j] == owned {
            return j;
        }
        j = j + 1;
    }
    variables.push(owned);
    proof {
        assert(variables.deep_view() =~= vars.push(name@));
    }
    j
}

/// Parses a token sequence into a syntax tree and its variable table. The conditional
/// operators `=>` and `<=>` have no precedence here: reaching one is a syntax error at it.
pub fn compile<'a>(tokens: &Vec<Token<'a>>) -> (r: CompiledSyntaxBTree<'a>)
    ensures
        compile_result(tokens@, r),
{
    let mut nodes: Vec<ASTNode> = Vec::new();
    let mut pending: Vec<TokenType> = Vec::new();
    let mut variables: Vec<String> = Vec::new();
    let mut after_operand = false;
    let mut i: usize = 0;
    proof {
        assert(variables.deep_view() =~= seq![]);
        assert(ParseState {
            nodes: nodes@,
            pending: pending@,
            vars: variables.deep_view(),
            after_operand,
        }
            == initial_state());
    }
    while i < tokens.len()
        invariant
            i <= tokens.len(),
            pending_ok(pending@),
            parse(token_views(tokens@)) == parse_from(
                ParseState {
            nodes: nodes@,
            pending: pending@,
            vars: variables.deep_view(),
            after_operand,
        },
                token_views(tokens@),
                i as int,
            ),
        decreases tokens.len() - i,
    {
        let token = tokens[i];
        match token.token_type {
            TokenType::Error => {
                return CompiledSyntaxBTree { error_token: Some(token), root: None, variables };
            },
            TokenType::LeftParen | TokenType::LeftBrace => {
                pending.push(token.token_type);
                after_operand = false;
            },
            TokenType::Variable => {
                let location = intern(&mut variables, token.lexeme);
                nodes.push(ASTNode::create(NodeOperation::VariableDeref(location)));
                after_operand = true;
            },
            TokenType::Literal(val) => {
                nodes.push(ASTNode::create(NodeOperation::Literal(val)));
                after_operand = true;
            },
            TokenType::Operator(current_op) => {
                let ok = match current_op {
                    OperatorType::AND | OperatorType::OR => after_operand && reduce_pending(
                        &mut nodes,
                        &mut pending,
                        current_op,
                    ),
                    OperatorType::NOT => reduce_pending(
                        &mut nodes,
                        &mut pending,
                        current_op,
                    ),
                    _ => false,
                };
                if !ok {
                    return CompiledSyntaxBTree { error_token: Some(token), root: None, variables };
                }
                pending.push(TokenType::Operator(current_op));
                after_operand = false;
            },
            _ => {
                if !close_pending(&mut nodes, &mut pending, token.token_type) {
                    return CompiledSyntaxBTree { error_token: Some(token), root: None, variables };
                }
                after_operand = true;
            },
        }
        i = i + 1;
    }
    if pending.len() == 0 && nodes.len() == 1 {
        let root = nodes.pop().unwrap();
        CompiledSyntaxBTree { error_token: None, root: Some(Box::new(root)), variables }
    } else {
        CompiledSyntaxBTree { error_token: Some(eof_token()), root: None, variables }
    }
}

} // verus!
