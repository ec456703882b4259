use vstd::prelude::*;

use crate::compiler::{
    compile, compiled_root, compiles, initial_state, lemma_failure_in_range, parse, NodeOperation,
};
use crate::execution::{
    evaluate, group_labels, group_values, groups_of, groups_ok, groups_to_string,
    lemma_group_values_len, postfix, postorder_traversal_postfix, subexpression_groups,
    view_groups,
};
use crate::permutations::{row_of, BoolPermutationsIterator};
use crate::scanner::{
    blank_from, eof_lexeme, lemma_lexemes_nonempty, lemma_only_eof_iff_blank, lex, token_views,
    tokenize, TokenType,
};
use crate::soundness::lemma_compiled_groups_ok;

verus! {

/// A truth table: the variables and group labels as column headers, and for each assignment
/// the inputs and the value of every group.
pub struct TruthTable {
    pub variables: Vec<String>,
    pub labels: Vec<String>,
    pub inputs: Vec<Vec<bool>>,
    pub outputs: Vec<Vec<bool>>,
}

/// What a statement gives.
pub enum Outcome {
    /// Nothing but the end of input: there is nothing to do.
    Empty,
    /// Compilation failed at the token with this text.
    SyntaxError(String),
    /// The expression has more variables than a table can enumerate.
    TooManyVariables,
    /// The expression has too many nodes to number its groups.
    TooLarge,
    /// The truth table of the expression.
    Table(TruthTable),
}

/// The text of the token at which compilation fails.
pub open spec fn failing_lexeme(toks: Seq<(Seq<char>, TokenType)>) -> Seq<char> {
    match parse(toks).failed_at {
        Some(i) => toks[i].0,
        None => eof_lexeme(),
    }
}

/// `t` is the table of the variables `vars` and the groups `groups`, row r holding
/// assignment `row_of(r, n)`.
pub open spec fn table_of(t: TruthTable, vars: Seq<Seq<char>>, groups: Seq<Seq<NodeOperation>>) -> bool {
    let n = vars.len();
    let rows = vstd::arithmetic::power2::pow2(n);
    &&& t.variables.deep_view() == vars
    &&& t.labels.deep_view() == group_labels(groups, vars)
    &&& t.inputs@.len() == rows
    &&& t.outputs@.len() == rows
    &&& forall|r: int| 0 <= r < rows ==> (#[trigger] t.inputs@[r])@ == row_of(r as nat, n)
    &&& forall|r: int|
        0 <= r < rows ==> (#[trigger] t.outputs@[r])@ == group_values(groups, row_of(r as nat, n))
}

fn copy_row(v: &Vec<bool>) -> (r: Vec<bool>)
    ensures
        r@ == v@,
{
    let mut r: Vec<bool> = Vec::new();
    let mut i: usize = 0;
    while i < v.len()
        invariant
            i <= v@.len(),
            r@ == v@.subrange(0, i as int),
        decreases v@.len() - i,
    {
        r.push(v[i]);
        i = i + 1;
        proof {
            assert(r@ =~= v@.subrange(0, i as int));
        }
    }
    proof {
        assert(v@.subrange(0, v@.len() as int) =~= v@);
    }
    r
}

/// Compiles a statement and evaluates it under every assignment of its variables.
pub fn process_statement(stmt: &str) -> (r: Outcome)
    ensures
        ({
            let toks = lex(stmt@);
            let vars = parse(toks).state.vars;
            &&& (r is Empty) == blank_from(stmt@, 0)
            &&& match r {
                Outcome::Empty => toks.len() == 1,
                Outcome::SyntaxError(lexeme) => toks.len() != 1 && !compiles(toks) && lexeme@
                    == failing_lexeme(toks),
                Outcome::TooManyVariables => toks.len() != 1 && compiles(toks) && vars.len() >= 32,
                Outcome::TooLarge => toks.len() != 1 && compiles(toks) && vars.len() < 32
                    && postfix(compiled_root(toks)).len() >= u32::MAX,
                Outcome::Table(t) => toks.len() != 1 && compiles(toks) && vars.len() < 32
                    && table_of(t, vars, groups_of(compiled_root(toks))),
            }
        }),
{
    let tokens = tokenize(stmt);
    let ghost toks = lex(stmt@);
    proof {
        lemma_only_eof_iff_blank(stmt@);
    }
    if tokens.len() == 1 {
        return Outcome::Empty;
    }
    let compiled = compile(&tokens);
    proof {
        lemma_failure_in_range(initial_state(), toks, 0);
        if let Some(i) = parse(toks).failed_at {
            assert(token_views(tokens@)[i] == tokens@[i]@);
        }
    }
    if let Some(t) = compiled.error_token {
        return Outcome::SyntaxError(t.lexeme.to_owned());
    }
    let root = compiled.root.unwrap();
    let variables = compiled.variables;
    let nvars = variables.len();
    if nvars >= 32 {
        return Outcome::TooManyVariables;
    }
    let mut program: Vec<NodeOperation> = Vec::new();
    let count = postorder_traversal_postfix(&root, &mut program, 0);
    if count >= u32::MAX as usize {
        return Outcome::TooLarge;
    }
    proof {
        lemma_compiled_groups_ok(toks);
    }
    let groups = subexpression_groups(&root);
    let ghost gs = view_groups(groups@);
    let labels = groups_to_string(&groups, &variables);
    let mut iter = BoolPermutationsIterator::new(nvars as u32);
    let mut row_results: Vec<bool> = vec![false; groups.len()];
    let mut inputs: Vec<Vec<bool>> = Vec::new();
    let mut outputs: Vec<Vec<bool>> = Vec::new();
    while !iter.finished()
        invariant
            iter.wf(),
            iter.size == nvars,
            nvars == variables.deep_view().len(),
            gs == view_groups(groups@),
            groups_ok(gs, nvars as int),
            row_results@.len() == groups@.len(),
            inputs@.len() == iter.current,
            outputs@.len() == iter.current,
            forall|r: int| 0 <= r < iter.current ==> (#[trigger] inputs@[r])@ == row_of(r as nat, nvars as nat),
            forall|r: int|
                0 <= r < iter.current ==> (#[trigger] outputs@[r])@ == group_values(
                    gs,
                    row_of(r as nat, nvars as nat),
                ),
        decreases iter.last - iter.current,
    {
        let ghost r = iter.current;
        iter.advance();
        inputs.push(copy_row(iter.get()));
        evaluate(&groups, iter.get().as_slice(), row_results.as_mut_slice());
        proof {
            lemma_group_values_len(gs, iter.data@);
            assert(row_results@ =~= row_results@.subrange(0, groups@.len() as int));
        }
        outputs.push(copy_row(&row_results));
    }
    Outcome::Table(TruthTable { variables, labels, inputs, outputs })
}

/// When a statement does not compile, the token at which it fails has text to report.
pub proof fn lemma_failure_names_token(s: Seq<char>)
    requires
        !compiles(lex(s)),
    ensures
        failing_lexeme(lex(s)).len() > 0,
{
    lemma_lexemes_nonempty(s);
    lemma_failure_in_range(initial_state(), lex(s), 0);
    if let Some(i) = parse(lex(s)).failed_at {
        assert(lex(s)[i].0.len() > 0);
    }
}

} // verus!
