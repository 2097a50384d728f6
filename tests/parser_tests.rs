use exprparse::element::{classify_value, get_element, get_end_bracket, get_operator, Element, Value, ValueType};
use exprparse::parser::{line_to_tokens, parse_element, ParseError};

fn toks(line: &str) -> Vec<String> {
    line_to_tokens(line)
}

fn strs(v: &[&str]) -> Vec<String> {
    v.iter().map(|s| s.to_string()).collect()
}

fn parse_line(line: &str) -> Result<Option<Element>, ParseError> {
    let tokens = toks(line);
    let mut pos: usize = 0;
    parse_element(&tokens, &mut pos, "", 0, String::new())
}

fn parse_ok(line: &str) -> Element {
    parse_line(line).expect("no fault").expect("an element")
}

fn op(e: &Element, sym: &str, pr: i32) -> bool {
    e.value == Value::Operator(sym.to_string(), pr)
}

fn integer(e: &Element, n: i64) -> bool {
    e.value == Value::Integer(n) && e.childlen.is_empty()
}

fn ident(e: &Element, s: &str) -> bool {
    e.value == Value::Identifier(s.to_string()) && e.childlen.is_empty()
}

#[test]
fn tokenize_simple_sum() {
    assert_eq!(toks("a+b"), strs(&["a", "+", "b", "\n"]));
}

#[test]
fn tokenize_whitespace_runs_and_comment() {
    assert_eq!(
        toks("  x = 1 # c"),
        strs(&["  ", "x", " ", "=", " ", "1", " ", "\n"])
    );
}

#[test]
fn tokenize_comment_only_line() {
    assert_eq!(toks("# all comment"), strs(&["\n"]));
}

#[test]
fn tokenize_empty_line() {
    assert_eq!(toks(""), strs(&["\n"]));
}

#[test]
fn tokenize_trailing_whitespace_kept() {
    assert_eq!(toks("ab  "), strs(&["ab", "  ", "\n"]));
}

#[test]
fn tokenize_punctuation_never_merges() {
    assert_eq!(toks("a==b"), strs(&["a", "=", "=", "b", "\n"]));
    assert_eq!(toks("(x1)"), strs(&["(", "x1", ")", "\n"]));
}

#[test]
fn tokenize_is_deterministic() {
    assert_eq!(toks("if a { b } # z"), toks("if a { b } # z"));
}

#[test]
fn classify_tokens() {
    assert_eq!(get_element("*").unwrap().value, Value::Operator("*".to_string(), 20));
    assert_eq!(get_element("-").unwrap().value, Value::Operator("-".to_string(), 10));
    assert_eq!(get_element("{").unwrap().value, Value::Bracket("{".to_string()));
    assert_eq!(get_element(")").unwrap().value, Value::Bracket(")".to_string()));
    assert_eq!(get_element("\n").unwrap().value, Value::EndLine);
    assert_eq!(get_element(" \t").unwrap().value, Value::Space(" \t".to_string()));
    assert_eq!(get_element("else").unwrap().value, Value::Symbol("else".to_string()));
    assert_eq!(get_element("1234").unwrap().value, Value::Integer(1234));
    assert_eq!(get_element("x1").unwrap().value, Value::Identifier("x1".to_string()));
    assert_eq!(get_element("é").unwrap().value, Value::Identifier("é".to_string()));
    let e = get_element("abc").unwrap();
    assert_eq!(e.value_type, ValueType::Inference);
    assert!(e.childlen.is_empty());
}

#[test]
fn classify_rejects_unknown_tokens() {
    assert!(get_element("=").is_none());
    assert!(get_element("1a").is_none());
    assert!(get_element("").is_none());
    assert!(get_element("9223372036854775808").is_none());
    assert_eq!(
        get_element("9223372036854775807").unwrap().value,
        Value::Integer(i64::MAX)
    );
}

#[test]
fn classify_given_first_character_class() {
    assert_eq!(classify_value("_x", true), Some(Value::Identifier("_x".to_string())));
    assert_eq!(classify_value("_x", false), None);
    assert_eq!(classify_value("12", true), Some(Value::Integer(12)));
    assert_eq!(classify_value("if", false), Some(Value::Symbol("if".to_string())));
    assert_eq!(classify_value("+", true), Some(Value::Operator("+".to_string(), 10)));
}

#[test]
fn operator_and_bracket_tables() {
    assert_eq!(get_operator(&"/".to_string()), Value::Operator("/".to_string(), 20));
    assert_eq!(get_operator(&"+".to_string()), Value::Operator("+".to_string(), 10));
    assert_eq!(get_end_bracket("("), Some(")".to_string()));
    assert_eq!(get_end_bracket("{"), Some("}".to_string()));
    assert_eq!(get_end_bracket(")"), None);
    assert_eq!(get_end_bracket("["), None);
}

#[test]
fn precedence_multiplication_nests_under_addition() {
    let root = parse_ok("1+2*3");
    assert!(op(&root, "+", 10));
    assert_eq!(root.childlen.len(), 2);
    assert!(integer(&root.childlen[0], 1));
    let right = &root.childlen[1];
    assert!(op(right, "*", 20));
    assert!(integer(&right.childlen[0], 2));
    assert!(integer(&right.childlen[1], 3));
}

#[test]
fn precedence_higher_operator_first() {
    let root = parse_ok("1*2+3");
    assert!(op(&root, "+", 10));
    assert!(op(&root.childlen[0], "*", 20));
    assert!(integer(&root.childlen[0].childlen[0], 1));
    assert!(integer(&root.childlen[0].childlen[1], 2));
    assert!(integer(&root.childlen[1], 3));
}

#[test]
fn subtraction_is_left_associative() {
    let root = parse_ok("1-2-3");
    assert!(op(&root, "-", 10));
    assert_eq!(root.childlen.len(), 2);
    let left = &root.childlen[0];
    assert!(op(left, "-", 10));
    assert!(integer(&left.childlen[0], 1));
    assert!(integer(&left.childlen[1], 2));
    assert!(integer(&root.childlen[1], 3));
}

#[test]
fn division_is_left_associative() {
    let root = parse_ok("8 / 4 / 2");
    assert!(op(&root, "/", 20));
    assert!(op(&root.childlen[0], "/", 20));
    assert!(integer(&root.childlen[1], 2));
}

#[test]
fn brackets_override_precedence() {
    let root = parse_ok("(1+2)*3");
    assert!(op(&root, "*", 20));
    assert_eq!(root.childlen.len(), 2);
    let scope = &root.childlen[0];
    assert_eq!(scope.value, Value::Bracket("(".to_string()));
    assert_eq!(scope.childlen.len(), 1);
    let sum = &scope.childlen[0];
    assert!(op(sum, "+", 10));
    assert!(integer(&sum.childlen[0], 1));
    assert!(integer(&sum.childlen[1], 2));
    assert!(integer(&root.childlen[1], 3));
}

#[test]
fn reparsing_gives_the_same_tree() {
    let a = parse_ok("(a + 2) * b - 7 / c");
    let b = parse_ok("(a + 2) * b - 7 / c");
    assert_eq!(format!("{:?}", a), format!("{:?}", b));
}

#[test]
fn if_without_else() {
    let root = parse_ok("if a { b }");
    assert_eq!(root.value, Value::Symbol("if".to_string()));
    assert_eq!(root.childlen.len(), 2);
    assert!(ident(&root.childlen[0], "a"));
    let body = &root.childlen[1];
    assert_eq!(body.value, Value::Bracket("{".to_string()));
    assert_eq!(body.childlen.len(), 1);
    assert!(ident(&body.childlen[0], "b"));
}

#[test]
fn if_with_else() {
    let root = parse_ok("if a { b } else { c }");
    assert_eq!(root.value, Value::Symbol("if".to_string()));
    assert_eq!(root.childlen.len(), 3);
    assert!(ident(&root.childlen[0], "a"));
    let other = &root.childlen[2];
    assert_eq!(other.value, Value::Bracket("{".to_string()));
    assert_eq!(other.childlen.len(), 1);
    assert!(ident(&other.childlen[0], "c"));
}

#[test]
fn else_on_a_following_line() {
    let mut tokens = toks("if a { b }");
    tokens.extend(toks("else { c }"));
    let mut pos: usize = 0;
    let root = parse_element(&tokens, &mut pos, "", 0, String::new()).unwrap().unwrap();
    assert_eq!(root.childlen.len(), 3);
    assert_eq!(pos, tokens.len() - 1);
}

#[test]
fn if_without_brace_is_fatal() {
    let tokens = toks("if a");
    let mut pos: usize = 0;
    let r = parse_element(&tokens, &mut pos, "", 0, String::new());
    assert!(matches!(r, Err(ParseError::IfWithoutBrace)));
    assert_eq!(pos, 0);
}

#[test]
fn if_without_condition_is_fatal() {
    assert!(matches!(parse_line("if"), Err(ParseError::IfWithoutCondition)));
}

#[test]
fn else_without_body_is_fatal() {
    assert!(matches!(parse_line("else"), Err(ParseError::ElseWithoutBody)));
}

#[test]
fn let_without_assignment_is_fatal() {
    assert!(matches!(parse_line("let x = 1"), Err(ParseError::LetWithoutAssign)));
}

#[test]
fn stray_closer_is_fatal() {
    assert!(matches!(parse_line(")"), Err(ParseError::UnmatchedBracket)));
}

#[test]
fn missing_right_operand_is_soft() {
    let root = parse_ok("1 +");
    assert!(op(&root, "+", 10));
    assert_eq!(root.childlen.len(), 1);
    assert!(integer(&root.childlen[0], 1));
}

#[test]
fn line_break_inside_brackets_is_free() {
    let mut tokens = toks("(1 +");
    tokens.extend(toks("2)"));
    let mut pos: usize = 0;
    let root = parse_element(&tokens, &mut pos, "", 0, String::new()).unwrap().unwrap();
    assert_eq!(root.value, Value::Bracket("(".to_string()));
    assert_eq!(root.childlen.len(), 1);
    let sum = &root.childlen[0];
    assert!(op(sum, "+", 10));
    assert!(integer(&sum.childlen[1], 2));
}

#[test]
fn whole_file_statements() {
    let mut tokens = toks("a + 1");
    tokens.extend(toks(""));
    tokens.extend(toks("b"));
    let mut pos: usize = 0;
    let root = parse_element(&tokens, &mut pos, "", -1, String::new()).unwrap().unwrap();
    assert_eq!(root.value, Value::FileScope);
    assert_eq!(root.value_type, ValueType::Unresolved);
    assert_eq!(root.childlen.len(), 2);
    assert!(op(&root.childlen[0], "+", 10));
    assert!(ident(&root.childlen[1], "b"));
    assert_eq!(pos, tokens.len());
}

#[test]
fn whole_file_needs_separators() {
    let tokens = toks("a b");
    let mut pos: usize = 0;
    let r = parse_element(&tokens, &mut pos, "", -1, String::new());
    assert!(matches!(r, Err(ParseError::MissingSeparator)));
}

#[test]
fn statement_level_line_end_is_returned() {
    let tokens = toks("");
    let mut pos: usize = 0;
    let r = parse_element(&tokens, &mut pos, "", 0, String::new()).unwrap().unwrap();
    assert_eq!(r.value, Value::EndLine);
    assert_eq!(pos, 1);
}

#[test]
fn literal_expectation_skips_blanks() {
    let tokens = toks("  else { c }");
    let mut pos: usize = 0;
    let r = parse_element(&tokens, &mut pos, "else", 1, String::new()).unwrap().unwrap();
    assert_eq!(r.value, Value::Symbol("else".to_string()));
    assert_eq!(r.childlen.len(), 1);
}

#[test]
fn literal_expectation_mismatch_restores_cursor() {
    let tokens = toks("  els");
    let mut pos: usize = 0;
    let r = parse_element(&tokens, &mut pos, "else", 1, String::new()).unwrap();
    assert!(r.is_none());
    assert_eq!(pos, 0);
}

#[test]
fn low_precedence_operator_is_not_read() {
    let tokens = toks("+ 1");
    let mut pos: usize = 0;
    let r = parse_element(&tokens, &mut pos, "", 15, String::new()).unwrap();
    assert!(r.is_none());
    assert_eq!(pos, 0);
}

#[test]
fn cursor_past_end_gives_nothing() {
    let tokens = toks("a");
    let mut pos: usize = 7;
    let r = parse_element(&tokens, &mut pos, "", 0, String::new()).unwrap();
    assert!(r.is_none());
    assert_eq!(pos, 7);
}

#[test]
fn literal_below_limit_restores_cursor() {
    let tokens = strs(&[" ", "+", "\n"]);
    let mut pos: usize = 0;
    let r = parse_element(&tokens, &mut pos, "+", 20, String::new()).unwrap();
    assert!(r.is_none());
    assert_eq!(pos, 0);
}

#[test]
fn literal_near_miss_restores_cursor() {
    let tokens = toks("elsa x");
    let mut pos: usize = 0;
    let r = parse_element(&tokens, &mut pos, "else", 1, String::new()).unwrap();
    assert!(r.is_none());
    assert_eq!(pos, 0);
}

#[test]
fn unrecognized_token_leaves_cursor() {
    let tokens = toks("=");
    let mut pos: usize = 0;
    let r = parse_element(&tokens, &mut pos, "", 0, String::new()).unwrap();
    assert!(r.is_none());
    assert_eq!(pos, 0);
    let r = parse_element(&tokens, &mut pos, "=", 0, String::new()).unwrap();
    assert!(r.is_none());
    assert_eq!(pos, 0);
}

#[test]
fn whole_file_rejects_unrecognized_token() {
    let tokens = toks("x = 1");
    let mut pos: usize = 0;
    let r = parse_element(&tokens, &mut pos, "", -1, String::new());
    assert!(matches!(r, Err(ParseError::UnrecognizedToken)));
    assert_eq!(pos, 0);
}

#[test]
fn whole_file_rejects_oversized_integer() {
    let tokens = toks("9223372036854775808");
    let mut pos: usize = 0;
    let r = parse_element(&tokens, &mut pos, "", -1, String::new());
    assert!(matches!(r, Err(ParseError::UnrecognizedToken)));
}

#[test]
fn whole_file_reaches_the_end() {
    let mut tokens = toks("if a { b }");
    tokens.extend(toks("(1 + 2) * x"));
    let mut pos: usize = 0;
    let root = parse_element(&tokens, &mut pos, "", -1, String::new()).unwrap().unwrap();
    assert_eq!(root.childlen.len(), 2);
    assert_eq!(pos, tokens.len());
}
