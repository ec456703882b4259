use ttbl::compiler::{compile, NodeOperation};
use ttbl::execution::{
    evaluate, groups_to_string, groups_well_formed, postorder_traversal_postfix,
    subexpression_groups,
};
use ttbl::permutations::{map_bool_cell, pow2, BoolPermutationsIterator};
use ttbl::scanner::{tokenize, OperatorType, TokenType};
use ttbl::table::{process_statement, Outcome};

fn groups_of(stmt: &str) -> (Vec<Vec<NodeOperation>>, Vec<String>) {
    let tokens = tokenize(stmt);
    let compiled = compile(&tokens);
    assert!(compiled.error_token.is_none());
    let root = compiled.root.unwrap();
    (subexpression_groups(&root), compiled.variables)
}

fn labels_of(stmt: &str) -> Vec<String> {
    let (groups, variables) = groups_of(stmt);
    groups_to_string(&groups, &variables)
}

fn evaluate_with(stmt: &str, values: &[bool]) -> Vec<bool> {
    let (groups, variables) = groups_of(stmt);
    assert!(groups_well_formed(&groups, variables.len()));
    let mut out = vec![false; groups.len()];
    evaluate(&groups, values, &mut out);
    out
}

fn error_lexeme(stmt: &str) -> String {
    let tokens = tokenize(stmt);
    let compiled = compile(&tokens);
    assert!(compiled.root.is_none());
    compiled.error_token.unwrap().lexeme.to_string()
}

#[test]
fn empty_input_is_only_eof() {
    let tokens = tokenize("");
    assert_eq!(tokens.len(), 1);
    assert_eq!(tokens[0].token_type, TokenType::EOF);
    assert_eq!(tokens[0].lexeme, "<EOF>");
    assert_eq!(tokenize(" \t\n").len(), 1);
    assert!(matches!(process_statement("   "), Outcome::Empty));
}

#[test]
fn compiling_only_eof_fails_at_end() {
    let tokens = tokenize("");
    assert_eq!(error_lexeme(""), "<EOF>");
    let compiled = compile(&tokens);
    assert!(compiled.variables.is_empty());
}

#[test]
fn tokenize_symbols_and_words() {
    let tokens = tokenize("p1 & q | !r ~s (x) {y} and or not");
    let kinds: Vec<TokenType> = tokens.iter().map(|t| t.token_type).collect();
    assert_eq!(
        kinds,
        vec![
            TokenType::Variable,
            TokenType::Operator(OperatorType::AND),
            TokenType::Variable,
            TokenType::Operator(OperatorType::OR),
            TokenType::Operator(OperatorType::NOT),
            TokenType::Variable,
            TokenType::Operator(OperatorType::NOT),
            TokenType::Variable,
            TokenType::LeftParen,
            TokenType::Variable,
            TokenType::RightParen,
            TokenType::LeftBrace,
            TokenType::Variable,
            TokenType::RightBrace,
            TokenType::Operator(OperatorType::AND),
            TokenType::Operator(OperatorType::OR),
            TokenType::Operator(OperatorType::NOT),
            TokenType::EOF,
        ]
    );
    assert_eq!(tokens[0].lexeme, "p1");
}

#[test]
fn tokenize_literals_ignore_case_keywords_do_not() {
    let tokens = tokenize("true T False f AND tRuE");
    let kinds: Vec<TokenType> = tokens.iter().map(|t| t.token_type).collect();
    assert_eq!(
        kinds,
        vec![
            TokenType::Literal(true),
            TokenType::Literal(true),
            TokenType::Literal(false),
            TokenType::Literal(false),
            TokenType::Variable,
            TokenType::Literal(true),
            TokenType::EOF,
        ]
    );
}

#[test]
fn tokenize_conditionals() {
    let tokens = tokenize("p => q <=> r");
    assert_eq!(tokens[1].token_type, TokenType::Operator(OperatorType::CNDL));
    assert_eq!(tokens[1].lexeme, "=>");
    assert_eq!(tokens[3].token_type, TokenType::Operator(OperatorType::BI_CNDL));
    assert_eq!(tokens[3].lexeme, "<=>");
    assert_eq!(tokens.len(), 6);
}

#[test]
fn tokenize_stops_at_malformed_input() {
    let tokens = tokenize("p $ q");
    assert_eq!(tokens.len(), 3);
    assert_eq!(tokens[1].token_type, TokenType::Error);
    assert_eq!(tokens[1].lexeme, "$");
    assert_eq!(tokens[2].token_type, TokenType::EOF);
    let tokens = tokenize("p <= q");
    assert_eq!(tokens[1].token_type, TokenType::Error);
    assert_eq!(tokens[1].lexeme, "<=");
    let tokens = tokenize("p = q");
    assert_eq!(tokens[1].lexeme, "=");
    assert_eq!(tokens[1].token_type, TokenType::Error);
}

#[test]
fn lexical_error_is_the_compile_error() {
    assert_eq!(error_lexeme("p $ q"), "$");
    match process_statement("p $ q") {
        Outcome::SyntaxError(lexeme) => assert_eq!(lexeme, "$"),
        _ => panic!("expected an error"),
    }
}

#[test]
fn precedence_and_over_or() {
    assert_eq!(groups_of("p & q | r").0, groups_of("(p & q) | r").0);
    assert_eq!(labels_of("p & q | r"), vec!["((p & q) | r)".to_string()]);
    assert_ne!(groups_of("p & q | r").0, groups_of("p & (q | r)").0);
}

#[test]
fn precedence_not_over_and() {
    assert_eq!(groups_of("!p & q").0, groups_of("(!p) & q").0);
    assert_eq!(labels_of("!p & q"), vec!["(!(p) & q)".to_string()]);
}

#[test]
fn equal_precedence_nests_to_the_right() {
    assert_eq!(labels_of("p & q & r"), vec!["(p & (q & r))".to_string()]);
    assert_eq!(labels_of("p or q or r"), vec!["(p | (q | r))".to_string()]);
}

#[test]
fn variables_are_interned() {
    let (_, variables) = groups_of("p & q & p");
    assert_eq!(variables, vec!["p".to_string(), "q".to_string()]);
}

#[test]
fn evaluate_and() {
    assert_eq!(evaluate_with("p & q", &[true, false]), vec![false]);
    assert_eq!(evaluate_with("p & q", &[true, true]), vec![true]);
}

#[test]
fn evaluate_not_or() {
    assert_eq!(evaluate_with("!(p | q)", &[false, false]), vec![true]);
    assert_eq!(evaluate_with("!(p | q)", &[false, true]), vec![false]);
}

#[test]
fn evaluate_literals() {
    assert_eq!(evaluate_with("p & T", &[true]), vec![true]);
    assert_eq!(evaluate_with("p | false", &[false]), vec![false]);
    assert_eq!(labels_of("t | F"), vec!["(<T> | <F>)".to_string()]);
}

#[test]
fn braces_make_groups() {
    let (groups, variables) = groups_of("(p or q) and not {p and q}");
    assert_eq!(variables, vec!["p".to_string(), "q".to_string()]);
    assert_eq!(groups.len(), 2);
    assert_eq!(
        groups[0],
        vec![
            NodeOperation::VariableDeref(0),
            NodeOperation::VariableDeref(1),
            NodeOperation::BinaryOperation(OperatorType::AND),
        ]
    );
    assert_eq!(
        groups[1],
        vec![
            NodeOperation::VariableDeref(0),
            NodeOperation::VariableDeref(1),
            NodeOperation::BinaryOperation(OperatorType::OR),
            NodeOperation::IndexedSubexpression(0),
            NodeOperation::UnaryOperation(OperatorType::NOT),
            NodeOperation::BinaryOperation(OperatorType::AND),
        ]
    );
    assert_eq!(evaluate_with("(p or q) and not {p and q}", &[true, false]), vec![false, true]);
    assert_eq!(
        groups_to_string(&groups, &variables),
        vec!["(p & q)".to_string(), "((p | q) & !((p & q)))".to_string()]
    );
}

#[test]
fn group_lengths_cover_the_program() {
    let tokens = tokenize("(p or q) and not {p and q}");
    let compiled = compile(&tokens);
    let root = compiled.root.unwrap();
    let mut flat = Vec::new();
    let count = postorder_traversal_postfix(&root, &mut flat, 0);
    assert_eq!(count, 9);
    assert_eq!(flat.len(), 9);
    assert_eq!(flat[6], NodeOperation::Subexpression);
    let groups = subexpression_groups(&root);
    let total: usize = groups.iter().map(|g| g.len()).sum();
    assert_eq!(total, count);
    let mut remaining: Vec<NodeOperation> = flat
        .iter()
        .map(|op| match op {
            NodeOperation::Subexpression => NodeOperation::IndexedSubexpression(0),
            other => *other,
        })
        .collect();
    for op in groups.iter().flatten() {
        let at = remaining.iter().position(|x| x == op).unwrap();
        remaining.remove(at);
    }
    assert!(remaining.is_empty());
}

#[test]
fn braced_whole_expression_is_one_group() {
    let (groups, _) = groups_of("{p & q}");
    assert_eq!(groups.len(), 1);
    assert_eq!(labels_of("{p & q}"), vec!["(p & q)".to_string()]);
    let tokens = tokenize("{p & q}");
    let root = compile(&tokens).root.unwrap();
    let mut flat = Vec::new();
    assert_eq!(postorder_traversal_postfix(&root, &mut flat, 0), 4);
    assert_eq!(groups[0].len(), 3);
    let (nested, _) = groups_of("{{p}}");
    assert_eq!(nested.len(), 1);
    assert_eq!(nested[0], vec![NodeOperation::VariableDeref(0)]);
}

#[test]
fn shared_groups_are_referenced() {
    let (groups, _) = groups_of("{p} & {q}");
    assert_eq!(groups.len(), 3);
    assert_eq!(
        groups[2],
        vec![
            NodeOperation::IndexedSubexpression(0),
            NodeOperation::IndexedSubexpression(1),
            NodeOperation::BinaryOperation(OperatorType::AND),
        ]
    );
    assert_eq!(labels_of("{p} & {q}"), vec!["p", "q", "(p & q)"]);
    assert_eq!(evaluate_with("{p} & {q}", &[true, false]), vec![true, false, false]);
}

#[test]
fn unterminated_paren_fails_at_end() {
    assert_eq!(error_lexeme("(p & q"), "<EOF>");
    assert_eq!(error_lexeme("{p & q"), "<EOF>");
}

#[test]
fn doubled_operator_fails_at_second() {
    let tokens = tokenize("p & & q");
    let compiled = compile(&tokens);
    assert!(compiled.root.is_none());
    let error = compiled.error_token.unwrap();
    assert_eq!(error.lexeme, "&");
    assert_eq!(error.token_type, TokenType::Operator(OperatorType::AND));
    assert!(std::ptr::eq(error.lexeme.as_ptr(), tokens[2].lexeme.as_ptr()));
    assert_eq!(error_lexeme("p & | q"), "|");
}

#[test]
fn binary_operator_without_left_operand_fails_at_it() {
    assert_eq!(error_lexeme("& p"), "&");
    assert_eq!(error_lexeme("(| p)"), "|");
    assert_eq!(error_lexeme("{and p}"), "and");
    assert_eq!(error_lexeme("!& p"), "&");
    assert_eq!(labels_of("!!p & (q)"), vec!["(!(!(p)) & q)".to_string()]);
}

#[test]
fn mismatched_brackets_fail() {
    assert_eq!(error_lexeme("(p & q}"), "}");
    assert_eq!(error_lexeme("{p & q)"), ")");
    assert_eq!(error_lexeme("p)"), ")");
    assert_eq!(error_lexeme("p & q}"), "}");
}

#[test]
fn missing_operands_fail() {
    assert_eq!(error_lexeme("p &"), "<EOF>");
    assert_eq!(error_lexeme("!"), "<EOF>");
    assert_eq!(error_lexeme("p q"), "<EOF>");
    assert_eq!(error_lexeme("()"), "<EOF>");
}

#[test]
fn conditionals_are_rejected() {
    assert_eq!(error_lexeme("p => q"), "=>");
    assert_eq!(error_lexeme("p <=> q"), "<=>");
}

#[test]
fn malformed_groups_are_detected() {
    let underflow = vec![vec![NodeOperation::BinaryOperation(OperatorType::AND)]];
    assert!(!groups_well_formed(&underflow, 0));
    let leftover = vec![vec![NodeOperation::Literal(true), NodeOperation::Literal(false)]];
    assert!(!groups_well_formed(&leftover, 0));
    let forward = vec![vec![NodeOperation::IndexedSubexpression(0)]];
    assert!(!groups_well_formed(&forward, 0));
    let unknown_var = vec![vec![NodeOperation::VariableDeref(1)]];
    assert!(!groups_well_formed(&unknown_var, 1));
    let good = vec![vec![NodeOperation::VariableDeref(0)]];
    assert!(groups_well_formed(&good, 1));
}

#[test]
fn pow2_values() {
    assert_eq!(pow2(0), 1);
    assert_eq!(pow2(1), 2);
    assert_eq!(pow2(10), 1024);
    assert_eq!(pow2(31), 2147483648);
}

#[test]
fn permutations_run_from_all_true() {
    let mut iter = BoolPermutationsIterator::new(2);
    assert_eq!(iter.get(), &vec![false, false]);
    assert!(!iter.finished());
    let mut rows = Vec::new();
    while !iter.finished() {
        iter.advance();
        rows.push(iter.get().clone());
    }
    assert_eq!(
        rows,
        vec![vec![true, true], vec![true, false], vec![false, true], vec![false, false]]
    );
    let mut none = BoolPermutationsIterator::new(0);
    none.advance();
    assert!(none.finished());
    assert!(none.get().is_empty());
}

#[test]
fn bool_cells() {
    assert_eq!(map_bool_cell(&true), "T");
    assert_eq!(map_bool_cell(&false), "F");
}

#[test]
fn statement_table() {
    match process_statement("(p or q) and not {p and q}") {
        Outcome::Table(t) => {
            assert_eq!(t.variables, vec!["p".to_string(), "q".to_string()]);
            assert_eq!(t.labels.len(), 2);
            assert_eq!(t.inputs.len(), 4);
            assert_eq!(t.inputs[1], vec![true, false]);
            assert_eq!(
                t.outputs,
                vec![vec![true, false], vec![false, true], vec![false, true], vec![false, false]]
            );
        }
        _ => panic!("expected a table"),
    }
    match process_statement("(p & q") {
        Outcome::SyntaxError(lexeme) => assert_eq!(lexeme, "<EOF>"),
        _ => panic!("expected an error"),
    }
}

#[test]
fn statement_without_variables() {
    match process_statement("T & !F") {
        Outcome::Table(t) => {
            assert!(t.variables.is_empty());
            assert_eq!(t.inputs, vec![Vec::<bool>::new()]);
            assert_eq!(t.outputs, vec![vec![true]]);
        }
        _ => panic!("expected a table"),
    }
}
