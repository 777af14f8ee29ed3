use steelwool::verify::check_equivalence;
use steelwool::{format_source, Config, Error};

#[test]
fn the_equivalence_check_rejects_a_changed_program() {
    let changes = [
        ("(define x 1)", "(define x 2)"),
        ("(list a b)", "(list b a)"),
        ("(define x 1) ;; note", "(define x 1)"),
        (
            ";;@doc\n;; Adds.\n(define (f a) a)",
            ";;@doc\n;; Subtracts.\n(define (f a) a)",
        ),
        ("(require \"a.scm\" \"b.scm\")", "(require \"a.scm\")"),
        (";; note", ";; other note"),
        (";;@doc x", ";; @doc x"),
        ("(quote a b)", "(quote b a)"),
        ("'(a)", "'(b)"),
        ("(list #t)", "(list #t #t)"),
    ];
    for (before, after) in changes {
        assert!(
            check_equivalence(before, after).is_err(),
            "{before:?} and {after:?} must not compare equal"
        );
    }

    // The rewrites the passes are allowed to make, oracle rules R1 to R5.
    let rewrites = [
        (
            "(require \"b.scm\" \"a.scm\")",
            "(require \"a.scm\" \"b.scm\")",
        ),
        ("(provide b a)", "(provide a b)"),
        (";one", ";; one"),
        ("(quote (a b))", "'(a b)"),
        ("(quasiquote (a (unquote b)))", "`(a ,b)"),
        ("(list #true #false)", "(list #t #f)"),
    ];
    for (before, after) in rewrites {
        if let Err(error) = check_equivalence(before, after) {
            panic!("{before:?} and {after:?} are the same program: {error:?}");
        }
    }
}

#[test]
fn unbalanced_input_is_rejected() {
    let cases = [
        ("(define x", Error::UnclosedList { offset: 0 }),
        ("x)", Error::UnexpectedClose { offset: 1 }),
        ("(define x]", Error::MismatchedDelimiter { offset: 9 }),
        ("(list) '", Error::DanglingPrefix { offset: 7 }),
    ];
    for (source, expected) in cases {
        let error = format_source(source, &Config::default())
            .expect_err("unbalanced input must not format");
        assert_eq!(error, expected, "for input {source:?}");
    }
}

#[test]
fn output_ends_with_one_newline() {
    assert_eq!(
        format_source("", &Config::default()).expect("empty input formats"),
        ""
    );
}

use steelwool::verify::check_verdicts;

#[test]
fn a_text_is_the_same_program_as_itself() {
    for source in ["(define x 1)", ";; note\n(f 'x)", "", "#(1 2) [a] {b}"] {
        assert_eq!(check_equivalence(source, source), Ok(()));
    }
}

#[test]
fn comment_markers_are_a_blind_spot_but_doc_markers_are_not() {
    assert_eq!(check_equivalence(";;; note", "; note  "), Ok(()));
    assert_eq!(
        check_equivalence(";;@doc", ";@doc"),
        Err(Error::ProgramChanged)
    );
}

#[test]
fn clauses_are_compared_as_a_set_only_without_positional_as() {
    assert_eq!(
        check_equivalence("(require a as b)", "(require b as a)"),
        Err(Error::ProgramChanged)
    );
    assert_eq!(check_equivalence("(provide c b a)", "(provide a b c)"), Ok(()));
    assert_eq!(
        check_equivalence("(require-builtin b)\n(require a)", "(require a)\n(require-builtin b)"),
        Ok(())
    );
    assert_eq!(
        check_equivalence("(require b)\n(x)\n(require a)", "(require a)\n(x)\n(require b)"),
        Err(Error::ProgramChanged)
    );
}

#[test]
fn structural_errors_come_from_either_side() {
    assert_eq!(check_equivalence("(a", "(a)"), Err(Error::UnclosedList { offset: 0 }));
    assert_eq!(check_equivalence("(a)", "(a]"), Err(Error::MismatchedDelimiter { offset: 2 }));
    assert_eq!(check_equivalence("(a ')", "(a)"), Err(Error::DanglingPrefix { offset: 4 }));
    assert!(matches!(
        check_equivalence("\"open", "x"),
        Err(Error::Lex { .. })
    ));
}

#[test]
fn the_parser_verdicts_decide_the_second_check() {
    let same = check_verdicts("(a) (b)", Some(Ok(2)), Some(Ok(2)));
    assert_eq!(same, Ok(()));
    assert_eq!(
        check_verdicts("(a) (b)", Some(Ok(2)), Some(Ok(1))),
        Err(Error::OutputRejected("2 top level forms became 1".to_string()))
    );
    assert_eq!(
        check_verdicts("(a)", Some(Ok(1)), Some(Err("bad".to_string()))),
        Err(Error::OutputRejected("bad".to_string()))
    );
    assert_eq!(
        check_verdicts("(a)", Some(Ok(1)), None),
        Err(Error::OutputRejected("the Steel parser panicked on the output".to_string()))
    );
    assert_eq!(check_verdicts("(a)", None, None), Ok(()));
    assert_eq!(check_verdicts("(a)", Some(Err("x".to_string())), None), Ok(()));
    assert_eq!(check_verdicts("(quasiquote (a)) (b)", Some(Ok(2)), Some(Ok(1))), Ok(()));
    assert_eq!(
        check_verdicts("(a", Some(Ok(1)), Some(Ok(1))),
        Err(Error::UnclosedList { offset: 0 })
    );
}

use steelwool::cst::{tree_from_items, NodeKind};
use steelwool::steel::{LexFailure, LexToken, TokKind};
use steelwool::verify::{datums_from_items, Sexp};

fn token(kind: TokKind, text: &str, start: u32) -> Result<LexToken, LexFailure> {
    Ok(LexToken { kind, text: text.to_string(), start, end: start + text.len() as u32 })
}

fn atom_text(datum: &Sexp) -> String {
    match datum {
        Sexp::Atom(chars) => chars.iter().collect(),
        Sexp::List(..) => panic!("expected an atom"),
    }
}

#[test]
fn datums_are_read_from_given_tokens_comments_included() {
    let items = vec![
        token(TokKind::Open, "[", 0),
        token(TokKind::Other, "f", 1),
        token(TokKind::Comment, "; note", 3),
        token(TokKind::Other, "x", 10),
        token(TokKind::Close, "]", 11),
    ];
    let (datums, long_quasiquote) = datums_from_items(items).expect("the tokens are balanced");
    assert!(!long_quasiquote);
    assert_eq!(datums.len(), 1);
    match &datums[0] {
        Sexp::List(close, inner) => {
            assert_eq!(*close, ']');
            let texts: Vec<String> = inner.iter().map(atom_text).collect();
            assert_eq!(texts, vec!["f".to_string(), "; note".to_string(), "x".to_string()]);
        },
        Sexp::Atom(_) => panic!("expected a list"),
    }
}

#[test]
fn datum_reading_reports_each_structural_error_at_its_token() {
    let unexpected = vec![token(TokKind::Other, "a", 0), token(TokKind::Close, ")", 2)];
    assert!(matches!(datums_from_items(unexpected), Err(Error::UnexpectedClose { offset: 2 })));
    let mismatched = vec![token(TokKind::Open, "(", 0), token(TokKind::Close, "]", 1)];
    assert!(matches!(datums_from_items(mismatched), Err(Error::MismatchedDelimiter { offset: 1 })));
    let dangling = vec![token(TokKind::Open, "(", 0), token(TokKind::QuoteTick, "'", 1), token(TokKind::Close, ")", 2)];
    assert!(matches!(datums_from_items(dangling), Err(Error::DanglingPrefix { offset: 2 })));
    let unclosed = vec![token(TokKind::Open, "(", 0)];
    assert!(matches!(datums_from_items(unclosed), Err(Error::UnclosedList { .. })));
    let failed = vec![
        token(TokKind::Open, "(", 0),
        Err(LexFailure { message: "bad string".to_string(), offset: 1 }),
        token(TokKind::Close, ")", 5),
    ];
    match datums_from_items(failed) {
        Err(Error::Lex { message, offset }) => {
            assert_eq!(message, "bad string");
            assert_eq!(offset, 1);
        },
        _ => panic!("expected the lexer's error"),
    }
}

#[test]
fn a_tree_is_built_from_given_tokens() {
    let source = "(f 'x)";
    let items = vec![
        token(TokKind::Open, "(", 0),
        token(TokKind::Other, "f", 1),
        token(TokKind::QuoteTick, "'", 3),
        token(TokKind::Other, "x", 4),
        token(TokKind::Close, ")", 5),
    ];
    let nodes = tree_from_items(source, items).expect("the tokens are balanced");
    assert_eq!(nodes.len(), 1);
    match &nodes[0].kind {
        NodeKind::List(list) => {
            assert_eq!(list.items.len(), 2);
            assert!(matches!(&list.items[0].kind, NodeKind::Atom(text) if text == "f"));
            assert!(matches!(&list.items[1].kind, NodeKind::Prefix(p) if p.text == "'"));
        },
        _ => panic!("expected a list"),
    }
    let unexpected = vec![token(TokKind::Close, ")", 0)];
    assert!(matches!(tree_from_items(")", unexpected), Err(Error::UnexpectedClose { offset: 0 })));
}
