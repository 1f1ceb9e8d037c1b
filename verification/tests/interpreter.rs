use ramb::display::{PrintArguments, PrintFlags, APP_LHS, APP_RHS, FUN, TOP};
use ramb::expr::{app, apply, apply_binding, beta1, capture, fun, var, Expression, Name};
use ramb::parse::{best_error, parse_expr, ParseError};
use ramb::repl::{format_parse_error, get_line_col, process_input, Failure, Outcome, Session};
use ramb::text::chars_of;
use ramb::token::{tokenize, Token, TokenKind};
use std::rc::Rc;

fn run(session: &mut Session, line: &str) -> Outcome {
    process_input(line, session)
}

fn shown(o: &Outcome) -> Option<String> {
    o.shown.as_ref().map(|e| e.to_string())
}

fn message(o: &Outcome) -> Option<String> {
    match &o.result {
        Err(Failure::Message(m)) => Some(m.clone()),
        _ => None,
    }
}

fn steps(e: &Rc<Expression>) -> Vec<String> {
    let mut out = Vec::new();
    let mut e = Rc::clone(e);
    while let Some(next) = beta1(&e) {
        out.push(next.to_string());
        e = next;
    }
    out
}

#[test]
fn readme_definitions_are_echoed() {
    let mut s = Session::new();
    let o = run(&mut s, "succ :: \\n f x. f (n f x)\n");
    assert!(o.result.is_ok());
    assert_eq!(shown(&o).as_deref(), Some("𝞴n f x. f (n f x)"));
    assert!(!o.reduce);
    let o = run(&mut s, "0 :: \\f x. x\n");
    assert!(o.result.is_ok());
    assert_eq!(shown(&o).as_deref(), Some("𝞴f x. x"));
}

#[test]
fn readme_reduction_steps() {
    let mut s = Session::new();
    run(&mut s, "succ :: \\n f x. f (n f x)\n");
    run(&mut s, "0 :: \\f x. x\n");
    let o = run(&mut s, "succ (succ 0)\n");
    assert!(o.result.is_ok());
    assert!(o.reduce);
    let e = o.shown.unwrap();
    assert_eq!(
        e.to_string(),
        "(𝞴n f x. f (n f x)) ((𝞴n f x. f (n f x)) (𝞴f x. x))"
    );
    assert_eq!(
        steps(&e),
        vec![
            "𝞴f x. f ((𝞴n f x. f (n f x)) (𝞴f x. x) f x)",
            "𝞴f x. f ((𝞴f x. f ((𝞴f x. x) f x)) f x)",
            "𝞴f x. f ((𝞴f x. f ((𝞴x. x) x)) f x)",
            "𝞴f x. f ((𝞴f x. f x) f x)",
            "𝞴f x. f ((𝞴x. f x) x)",
            "𝞴f x. f (f x)",
        ]
    );
}

#[test]
fn readme_parse_error() {
    let mut s = Session::new();
    let o = run(&mut s, "\\wrong .. expression\n");
    assert!(o.shown.is_none());
    assert_eq!(
        message(&o).as_deref(),
        Some("Unexpected token, wanted Lambda found Dot at (1:8)")
    );
}

#[test]
fn question_mark_is_optional() {
    let mut s = Session::new();
    let o = run(&mut s, "(\\x. x) y?\n");
    assert!(o.result.is_ok());
    assert!(o.reduce);
    let e = o.shown.unwrap();
    assert_eq!(e.to_string(), "(𝞴x. x) y");
    assert_eq!(steps(&e), vec!["y"]);
}

#[test]
fn empty_line_gives_nothing() {
    let mut s = Session::new();
    let o = run(&mut s, "\n");
    assert!(o.result.is_ok());
    assert!(o.shown.is_none());
    let o = run(&mut s, "");
    assert!(o.result.is_ok());
    assert!(o.shown.is_none());
}

#[test]
fn unexpected_character() {
    let mut s = Session::new();
    let o = run(&mut s, "a : b");
    assert!(o.shown.is_none());
    assert_eq!(message(&o).as_deref(), Some("Unexpected character ':'"));
    let o = run(&mut s, "x # y\n");
    assert_eq!(message(&o).as_deref(), Some("Unexpected character '#'"));
}

#[test]
fn trailing_characters() {
    let mut s = Session::new();
    let o = run(&mut s, "x y z ) w");
    assert_eq!(shown(&o).as_deref(), Some("x y z"));
    assert_eq!(
        message(&o).as_deref(),
        Some("Trailing characters at 1:6: \" w\"")
    );
}

#[test]
fn trailing_characters_are_cut_at_twenty_with_newlines_escaped() {
    let mut s = Session::new();
    let o = run(&mut s, "x ) abcdefghijklmnopq\nrstuvwxyz");
    assert_eq!(
        message(&o).as_deref(),
        Some("Trailing characters at 1:2: \" abcdefghijklmnopq\\n\"")
    );
}

#[test]
fn error_before_the_end_has_a_position() {
    let mut s = Session::new();
    let o = run(&mut s, "(x .\n");
    assert_eq!(
        message(&o).as_deref(),
        Some("Unexpected token, wanted CParen found Dot at (1:3)")
    );
}

#[test]
fn error_at_the_end_of_input_is_unlocated() {
    let mut s = Session::new();
    let o = run(&mut s, "\\x\n");
    assert!(matches!(o.result, Err(Failure::Unlocated)));
    let o = run(&mut s, "(");
    assert!(matches!(o.result, Err(Failure::Unlocated)));
    let o = run(&mut s, "(\n");
    assert!(matches!(o.result, Err(Failure::Unlocated)));
}

#[test]
fn redefinition_replaces_the_value() {
    let mut s = Session::new();
    assert_eq!(shown(&run(&mut s, "x :: a\n")).as_deref(), Some("a"));
    assert_eq!(shown(&run(&mut s, "x :: b\n")).as_deref(), Some("b"));
    assert_eq!(shown(&run(&mut s, "x\n")).as_deref(), Some("b"));
    assert_eq!(shown(&run(&mut s, "y\n")).as_deref(), Some("y"));
}

#[test]
fn definitions_are_substituted_under_lambdas() {
    let mut s = Session::new();
    run(&mut s, "i :: \\z. z\n");
    assert_eq!(shown(&run(&mut s, "i w\n")).as_deref(), Some("(𝞴z. z) w"));
    assert_eq!(shown(&run(&mut s, "\\y. i y\n")).as_deref(), Some("𝞴y. (𝞴z. z) y"));
}

#[test]
fn a_lambda_rebinding_a_defined_name_shadows_it() {
    let mut s = Session::new();
    run(&mut s, "x :: \\a. a\n");
    assert_eq!(shown(&run(&mut s, "\\x. x\n")).as_deref(), Some("𝞴x. x"));
    assert_eq!(shown(&run(&mut s, "x (\\x. x)\n")).as_deref(), Some("(𝞴a. a) (𝞴x. x)"));
}

#[test]
fn k_applied_to_itself_and_an_argument_reduces_to_k() {
    let mut s = Session::new();
    run(&mut s, "k :: \\x y. x\n");
    let o = run(&mut s, "k k z\n");
    let e = o.shown.unwrap();
    assert_eq!(e.to_string(), "(𝞴x y. x) (𝞴x y. x) z");
    assert_eq!(steps(&e), vec!["(𝞴y x y. x) z", "𝞴x y. x"]);
}

#[test]
fn k_sharing_its_binders_reduces_to_k() {
    let k = fun("x", 1, &fun("y", 2, &var("x", 3)));
    let e = app(&app(&k, &k), &var("z", 4));
    assert_eq!(steps(&e).last().map(|t| t.as_str()), Some("𝞴x y. x"));
}

#[test]
fn session_hands_out_new_identities() {
    let mut s = Session::new();
    assert_eq!(s.next_id(), 0);
    run(&mut s, "x :: a\n");
    assert_eq!(s.next_id(), 4);
    run(&mut s, "a : b");
    assert_eq!(s.next_id(), 4);
}

#[test]
fn tokenize_positions() {
    let chars = chars_of("(\\x. x)");
    let ts = tokenize(&chars).unwrap();
    assert_eq!(
        ts,
        vec![
            (1, Token::OParen),
            (2, Token::Lambda),
            (3, Token::Ident { start: 2, end: 3 }),
            (4, Token::Dot),
            (6, Token::Ident { start: 5, end: 6 }),
            (7, Token::CParen),
            (7, Token::End),
        ]
    );
}

#[test]
fn tokenize_identifiers_primes_and_lambda_sign() {
    let chars = chars_of("x'' y_1 𝞴λ.ü");
    let ts = tokenize(&chars).unwrap();
    assert_eq!(
        ts,
        vec![
            (3, Token::Ident { start: 0, end: 3 }),
            (7, Token::Ident { start: 4, end: 7 }),
            (9, Token::Lambda),
            (10, Token::Ident { start: 9, end: 10 }),
            (11, Token::Dot),
            (12, Token::Ident { start: 11, end: 12 }),
            (12, Token::End),
        ]
    );
}

#[test]
fn tokenize_assign_print_and_whitespace() {
    let chars = chars_of(" \tf ::\r\n g ?");
    let ts = tokenize(&chars).unwrap();
    assert_eq!(
        ts,
        vec![
            (3, Token::Ident { start: 2, end: 3 }),
            (6, Token::Assign),
            (10, Token::Ident { start: 9, end: 10 }),
            (12, Token::Print),
            (12, Token::End),
        ]
    );
    assert_eq!(tokenize(&chars_of(" \t\n")).unwrap(), vec![(3, Token::End)]);
}

#[test]
fn tokenize_refuses_a_lone_colon() {
    assert_eq!(tokenize(&chars_of("a : b")), Err(2));
    assert_eq!(tokenize(&chars_of("a:")), Err(1));
    assert_eq!(tokenize(&chars_of("  $")), Err(2));
}

#[test]
fn token_kinds() {
    assert_eq!(Token::Ident { start: 0, end: 1 }.kind(), TokenKind::Ident);
    assert_eq!(Token::Print.kind(), TokenKind::Print);
    assert_eq!(Token::End.kind(), TokenKind::End);
}

#[test]
fn display_nested_lambdas_and_parentheses() {
    let body = app(&var("f", 1), &app(&var("n", 2), &var("x", 3)));
    let e = fun("n", 10, &fun("f", 11, &fun("x", 12, &body)));
    assert_eq!(e.to_string(), "𝞴n f x. f (n x)");
    let a = app(&fun("x", 1, &var("x", 2)), &fun("y", 3, &var("y", 4)));
    assert_eq!(a.to_string(), "(𝞴x. x) (𝞴y. y)");
    let left = app(&app(&var("a", 1), &var("b", 2)), &var("c", 3));
    assert_eq!(left.to_string(), "a b c");
    let right = app(&var("a", 1), &app(&var("b", 2), &var("c", 3)));
    assert_eq!(right.to_string(), "a (b c)");
}

#[test]
fn display_debug_shows_identities() {
    assert_eq!(var("x", 0x1abc).to_debug_string(), "x_abc");
    assert_eq!(app(&var("a", 1), &var("b", 2)).to_debug_string(), "(a_1 b_2)");
    let e = fun("x", 0x1234, &var("x", 1));
    assert_eq!(e.to_debug_string(), "(𝞴x_234. x_234)");
    let v1 = e.display(PrintArguments::new(1, PrintFlags(TOP)));
    assert_eq!(v1, "𝞴x_234. x_234");
    let in_body = e.display(PrintArguments::new(0, PrintFlags(FUN)));
    assert_eq!(in_body, "x. x");
    let as_arg = e.display(PrintArguments::new(0, PrintFlags(APP_RHS)));
    assert_eq!(as_arg, "(𝞴x. x)");
    let zero = var("z", 4096).display(PrintArguments::new(1, PrintFlags(TOP)));
    assert_eq!(zero, "z_0");
}

#[test]
fn print_flags() {
    let both = PrintFlags(APP_LHS) | PrintFlags(APP_RHS);
    assert_eq!(both.0, 6);
    assert!(both.any_set(PrintFlags(APP_RHS)));
    assert!(!PrintFlags(TOP).any_set(PrintFlags(FUN)));
}

#[test]
fn capture_links_free_occurrences() {
    let e = fun("x", 7, &app(&var("x", 1), &var("y", 2)));
    assert_eq!(e.to_debug_string(), "(𝞴x_7. (x_7 y_2))");
    let pat = Rc::new(Name { text: "y".to_string(), id: 9 });
    let c = capture(&pat, &app(&var("x", 1), &var("y", 2)));
    assert_eq!(c.to_debug_string(), "(x_1 y_9)");
}

#[test]
fn capture_stops_at_a_binder_of_the_same_name() {
    let e = fun("x", 7, &fun("x", 8, &var("x", 1)));
    assert_eq!(e.to_debug_string(), "(𝞴x_7 (x_8. x_8))");
}

#[test]
fn apply_substitutes_by_identity() {
    let pat = Rc::new(Name { text: "x".to_string(), id: 5 });
    let body = app(&var("x", 5), &var("x", 6));
    let r = apply(&pat, &body, &var("v", 1));
    assert_eq!(r.to_debug_string(), "(v_1 x_6)");
    let binder = fun("x", 5, &app(&var("x", 5), &var("z", 2)));
    let r = apply(&pat, &binder, &var("v", 1));
    assert_eq!(r.to_debug_string(), "(𝞴x_5. (x_5 z_2))");
}

#[test]
fn apply_binding_goes_by_name_with_shadowing() {
    let pat = Rc::new(Name { text: "k".to_string(), id: 50 });
    let val = var("v", 1);
    let e = app(&var("k", 2), &fun("y", 3, &app(&var("k", 4), &var("k", 50))));
    let r = apply_binding(&pat, &e, &val);
    assert_eq!(r.to_debug_string(), "(v_1 (𝞴y_3. (v_1 v_1)))");
    let same = fun("k", 3, &var("k", 4));
    assert_eq!(apply_binding(&pat, &same, &val).to_debug_string(), "(𝞴k_3. k_3)");
    let i = fun("x", 7, &var("x", 8));
    let id_pat = Rc::new(Name { text: "id".to_string(), id: 60 });
    let under = fun("y", 9, &app(&var("id", 10), &var("y", 11)));
    assert_eq!(apply_binding(&id_pat, &under, &i).to_string(), "𝞴y. (𝞴x. x) y");
}

#[test]
fn beta1_on_normal_forms() {
    assert!(beta1(&var("x", 1)).is_none());
    assert!(beta1(&fun("x", 1, &app(&var("x", 2), &var("y", 3)))).is_none());
    assert!(beta1(&app(&var("a", 1), &fun("x", 2, &var("x", 3)))).is_none());
}

#[test]
fn beta1_contracts_a_redex() {
    let e = app(&fun("x", 1, &var("x", 2)), &var("y", 3));
    assert_eq!(beta1(&e).unwrap().to_string(), "y");
}

#[test]
fn beta1_reduces_the_function_part_first() {
    let i1 = fun("x", 1, &var("x", 10));
    let i2 = fun("x", 2, &var("x", 11));
    let e = app(&app(&i1, &i2), &app(&i1, &var("z", 3)));
    assert_eq!(beta1(&e).unwrap().to_string(), "(𝞴x. x) ((𝞴x. x) z)");
    let g = app(&var("g", 4), &app(&i1, &var("z", 3)));
    assert_eq!(beta1(&g).unwrap().to_string(), "g z");
}

#[test]
fn line_and_column() {
    let t = chars_of("ab\ncd");
    assert_eq!(get_line_col(&t, 4), Some((2, 1)));
    assert_eq!(get_line_col(&t, 1), Some((1, 0)));
    assert_eq!(get_line_col(&t, 5), None);
    let r = chars_of("a\r\nb");
    assert_eq!(get_line_col(&r, 3), Some((3, 0)));
}

#[test]
fn format_errors() {
    let t = chars_of("abc def");
    let e = ParseError::UnexpectedToken {
        wanted: TokenKind::Dot,
        found: Token::Ident { start: 0, end: 3 },
        content: 3,
    };
    assert_eq!(
        format_parse_error(&e, &t),
        "Unexpected token, wanted Dot found Ident(\"abc\") at (1:2)"
    );
    let e = ParseError::UnexpectedToken {
        wanted: TokenKind::Ident,
        found: Token::CParen,
        content: 5,
    };
    assert_eq!(
        format_parse_error(&e, &t),
        "Unexpected token, wanted Ident found CParen at (1:4)"
    );
    let e = ParseError::OutOfTokens { wanted: TokenKind::Ident };
    assert_eq!(format_parse_error(&e, &t), "Out of tokens, wanted Ident(\"\")");
    let e = ParseError::OutOfTokens { wanted: TokenKind::CParen };
    assert_eq!(format_parse_error(&e, &t), "Out of tokens, wanted CParen");
}

#[test]
fn best_error_prefers_the_later_position() {
    let a = ParseError::UnexpectedToken { wanted: TokenKind::Dot, found: Token::End, content: 2 };
    let b = ParseError::UnexpectedToken { wanted: TokenKind::Lambda, found: Token::End, content: 5 };
    let o = ParseError::OutOfTokens { wanted: TokenKind::CParen };
    assert_eq!(best_error(a, b), b);
    assert_eq!(best_error(b, a), b);
    assert_eq!(best_error(a, a), a);
    assert_eq!(best_error(a, o), o);
    assert_eq!(best_error(o, b), o);
}

#[test]
fn printing_then_parsing_gives_the_same_term() {
    let body = app(&var("f", 1), &app(&app(&var("n", 2), &var("f", 3)), &var("x'", 4)));
    let terms = vec![
        fun("n", 10, &fun("f", 11, &fun("x'", 12, &body))),
        app(&app(&fun("a", 1, &var("a", 2)), &var("b_1", 3)), &fun("c", 4, &fun("d", 5, &var("c", 6)))),
        var("λ", 7),
    ];
    for t in terms {
        let text = t.to_string();
        let chars = chars_of(&text);
        let ts = tokenize(&chars).unwrap();
        let (j, back) = parse_expr(&chars, &ts, 0, 100).unwrap();
        assert_eq!(j + 1, ts.len());
        assert_eq!(back.to_string(), text);
    }
}

#[test]
fn a_redefinition_is_substituted_through_later_definitions() {
    let mut s = Session::new();
    run(&mut s, "x :: a\n");
    run(&mut s, "y :: b\n");
    assert_eq!(shown(&run(&mut s, "x :: \\q. y\n")).as_deref(), Some("𝞴q. b"));
    assert_eq!(shown(&run(&mut s, "x :: y\n")).as_deref(), Some("b"));
    assert_eq!(shown(&run(&mut s, "x :: \\y. y\n")).as_deref(), Some("𝞴y. y"));
    assert_eq!(shown(&run(&mut s, "x\n")).as_deref(), Some("𝞴y. y"));
}

#[test]
fn a_new_definition_reads_back() {
    let mut s = Session::new();
    run(&mut s, "k :: \\p q. p\n");
    assert_eq!(shown(&run(&mut s, "k\n")).as_deref(), Some("𝞴p q. p"));
}

#[test]
fn a_new_lambda_links_its_free_occurrences_and_keeps_inner_binders() {
    let e = fun("x", 1, &var("x", 2));
    assert_eq!(e.to_string(), "𝞴x. x");
    assert_eq!(e.to_debug_string(), "(𝞴x_1. x_1)");
    let inner = fun("x", 3, &var("x", 4));
    let e = fun("x", 5, &app(&var("x", 6), &inner));
    assert_eq!(e.to_debug_string(), "(𝞴x_5. (x_5 (𝞴x_3. x_3)))");
}
