use steelwool::config::Layers;
use steelwool::verify::check_idempotence;
use steelwool::{format_source, Config, Error};

fn at_width(width: i64) -> Config {
    let mut layers = Layers::new();
    layers
        .push_toml(&format!("width = {width}"), "test")
        .expect("the width parses");
    layers.resolve().expect("the width is valid")
}

fn formatted(source: &str) -> String {
    format_source(source, &Config::default()).expect("the source formats")
}

#[test]
fn a_define_is_spaced_onto_one_line() {
    assert_eq!(formatted("(define(f x)(+ x 1))\n"), "(define (f x) (+ x 1))\n");
    assert_eq!(formatted("(define  x   1)\n"), "(define x 1)\n");
}

#[test]
fn formatted_source_is_a_fixed_point() {
    assert_eq!(formatted("(define (f x) 1)\n"), "(define (f x) 1)\n");
    let source = "(define (f x)\n  ;; own line\n  (g x) ; trailing\n  (h x))\n";
    assert_eq!(formatted(source), source);
}

#[test]
fn a_form_that_overruns_breaks_after_its_distinguished_items() {
    let source = "(define (join a b c) (list a b c))\n";
    assert_eq!(
        format_source(source, &at_width(30)).expect("formats"),
        "(define (join a b c)\n  (list a b c))\n"
    );
    assert_eq!(
        format_source(source, &at_width(200)).expect("formats"),
        source
    );
}

#[test]
fn a_call_hangs_its_arguments_under_the_first() {
    assert_eq!(
        formatted("(some-function-with-a-long-name argument-number-one argument-number-two argument-three)"),
        "(some-function-with-a-long-name argument-number-one\n                                argument-number-two\n                                argument-three)\n"
    );
}

#[test]
fn a_broken_let_takes_one_binding_per_line() {
    assert_eq!(
        format_source(
            "(let ((alpha 1) (beta 2) (gamma 3)) (+ alpha beta gamma))",
            &at_width(30)
        )
        .expect("formats"),
        "(let ((alpha 1)\n      (beta 2)\n      (gamma 3))\n  (+ alpha beta gamma))\n"
    );
    assert_eq!(
        format_source(
            "(let loop ((i 0)) (when (< i 10) (display i) (loop (+ i 1))))",
            &at_width(30)
        )
        .expect("formats"),
        "(let loop ((i 0))\n  (when (< i 10)\n    (display i)\n    (loop (+ i 1))))\n"
    );
}

#[test]
fn cond_puts_every_clause_on_its_own_line() {
    assert_eq!(
        formatted("(cond [(= x 1) 'one] [(= x 2) 'two] [else 'many-many-many-many-many-many-many-many-many])"),
        "(cond\n  [(= x 1) 'one]\n  [(= x 2) 'two]\n  [else 'many-many-many-many-many-many-many-many-many])\n"
    );
}

#[test]
fn top_level_forms_get_one_blank_line_and_comments_keep_their_place() {
    assert_eq!(
        formatted(";; a comment\n(define x 1)\n\n\n(define y 2) ; trailing\n"),
        ";; a comment\n(define x 1)\n\n(define y 2) ; trailing\n"
    );
    assert_eq!(
        formatted("#(1 2 3) #u8(1 2) [a b] {c d}"),
        "#(1 2 3)\n\n#u8(1 2)\n\n[a b]\n\n{c d}\n"
    );
}

#[test]
fn requires_are_sorted_and_provides_take_a_line_per_name() {
    assert_eq!(
        formatted("(require \"b.scm\")\n(require \"a.scm\")\n(provide b a)"),
        "(require \"a.scm\")\n(require \"b.scm\")\n\n(provide a\n         b)\n"
    );
    assert_eq!(
        formatted("(require \"b.scm\" \"a.scm\")\n(require-builtin helix/core/text as text.)"),
        "(require \"a.scm\" \"b.scm\")\n(require-builtin helix/core/text as text.)\n"
    );
}

#[test]
fn provide_one_per_line_can_be_switched_off() {
    let source = "(provide alpha beta)\n";
    assert_eq!(formatted(source), "(provide alpha\n         beta)\n");
    let mut layers = Layers::new();
    layers
        .push_set("passes.provide-one-per-line=false")
        .expect("the override parses");
    let config = layers.resolve().expect("the override is valid");
    assert_eq!(format_source(source, &config).expect("formats"), source);
}

#[test]
fn reader_shorthand_booleans_and_comment_markers_are_normalised() {
    assert_eq!(formatted("'(a b) (quote (c d)) #true"), "'(a b)\n\n'(c d)\n\n#t\n");
    assert_eq!(formatted(";one\n(list #true)"), ";; one\n(list #t)\n");
    assert_eq!(
        formatted("`(a ,b ,@c) (quasiquote x) (unquote y)"),
        "`(a ,b ,@c)\n\n`x\n\n,y\n"
    );
}

#[test]
fn a_doc_comment_stays_glued_to_its_form() {
    assert_eq!(
        formatted(";;@doc\n;; Adds one.\n\n(define (inc x) (+ x 1))"),
        ";;@doc\n;; Adds one.\n(define (inc x) (+ x 1))\n"
    );
}

#[test]
fn a_block_comment_is_reproduced_verbatim() {
    assert_eq!(
        formatted("#| block\n comment |#\n(define x 1)"),
        "#| block\n comment |#\n(define x 1)\n"
    );
}

#[test]
fn a_fmt_off_region_is_reproduced_byte_for_byte() {
    let region = ";; fmt: off\n(define matrix\n  '(( 1  0  0 )\n    ( 0  1  0 )\n    ( 0  0  1 )))\n;; fmt: on\n";
    let source = format!("{region}(define  x 1)\n");
    assert_eq!(formatted(&source), format!("{region}\n(define x 1)\n"));
}

#[test]
fn idempotence_is_checked_by_formatting_twice() {
    let source = "(define(f x)(+ x 1))\n";
    assert_eq!(
        check_idempotence(source, &Config::default()).expect("formatting is stable"),
        "(define (f x) (+ x 1))\n"
    );
    assert_eq!(
        check_idempotence("(define x", &Config::default()),
        Err(Error::UnclosedList { offset: 0 })
    );
}

#[test]
fn errors_say_where_they_are() {
    let error = format_source("(define x", &Config::default()).expect_err("unbalanced");
    assert_eq!(error.offset(), Some(0));
    assert_eq!(error.message(), "byte 0: unclosed list");
    let error = format_source("x)", &Config::default()).expect_err("unbalanced");
    assert_eq!(error.message(), "byte 1: unexpected closing delimiter");
    assert_eq!(Error::ProgramChanged.offset(), None);
    assert_eq!(
        Error::ProgramChanged.message(),
        "internal error: formatting changed the program"
    );
    assert_eq!(
        Error::OutputRejected("2 top level forms became 1".to_string()).message(),
        "internal error: the Steel parser rejected the output: 2 top level forms became 1"
    );
}

#[test]
fn every_sample_is_stable_after_one_pass() {
    let samples = [
        "(define(f x)(+ x 1))\n",
        "(define (join a b c) (list a b c))\n",
        ";; a comment\n(define x 1)\n\n\n(define y 2) ; trailing\n",
        "(require \"b.scm\")\n(require \"a.scm\")\n(provide b a)",
        "'(a b) (quote (c d)) #true",
        ";;@doc\n;; Adds one.\n\n(define (inc x) (+ x 1))",
        "(cond [(= x 1) 'one] [(= x 2) 'two] [else 'many-many-many-many-many-many-many-many-many])",
        "(let ((alpha 1) (beta 2) (gamma 3)) (+ alpha beta gamma))",
        "#| block\n comment |#\n(define x 1)",
        "`(a ,b ,@c) (quasiquote x) (unquote y)",
    ];
    for width in [20, 30, 80] {
        let config = at_width(width);
        for sample in samples {
            let once = format_source(sample, &config).expect("the sample formats");
            assert_eq!(
                check_idempotence(sample, &config),
                Ok(once.clone()),
                "{sample:?} at width {width}"
            );
            assert!(once.ends_with('\n') && !once.ends_with("\n\n"), "{once:?}");
        }
    }
}

#[test]
fn arbitrary_text_gives_output_or_an_error() {
    let samples = [
        ")(", "(((", "'", "#", "\"", "(a . b)", "#\\x", "#u8(1 2", "{]", ";", "#|", "(define\n\n\n",
        "(quote)", "(quote a b c)", ",@", "((((a))))", "\t(a\tb)\t",
    ];
    for sample in samples {
        let _ = format_source(sample, &Config::default());
        let _ = format_source(sample, &at_width(1));
    }
}

#[test]
fn a_fmt_off_marker_after_a_form_protects_the_whole_form() {
    let source = "(define x\n  1) ;; fmt: off\n(y)\n";
    assert_eq!(formatted(source), source);
    let source = "(b\n ) (define x\n  1) ;; fmt: off\n(y  z)\n;; fmt: on\n(a  b)\n";
    assert_eq!(formatted(source), "(b\n ) (define x\n  1) ;; fmt: off\n(y  z)\n;; fmt: on\n\n(a b)\n");
}

#[test]
fn output_ends_with_exactly_one_newline() {
    let config = Config::default();
    for source in ["(define x 1)", "(define x 1)\n\n\n", "; note\n\n", "(a)\n(b)\n\n\n\n", "x"] {
        let out = format_source(source, &config).expect("formats");
        assert!(out.ends_with('\n'), "{out:?}");
        assert!(!out.ends_with("\n\n"), "{out:?}");
    }
    assert_eq!(format_source("", &config), Ok(String::new()));
    assert_eq!(format_source("\n\n", &config), Ok(String::new()));
}

#[test]
fn no_line_of_the_output_ends_in_white_space() {
    let config = at_width(20);
    let sources = [
        "(define (f a b)   \n  (+ a b))   \n",
        "(list one two three four five six seven)  ; trailing   \n",
        "(let ([x 1]\n      [y 2])\t\n  (+ x y))\n",
        "\n\n(a)\n\n\n(b)   ",
    ];
    for source in sources {
        let out = format_source(source, &config).expect("formats");
        for line in out.lines() {
            assert_eq!(line, line.trim_end(), "{out:?}");
        }
    }
}

#[test]
fn the_formatter_writes_no_tab_of_its_own() {
    let config = Config::default();
    let sources = ["(define (f a)\n\t(+ a 1))\n", "(let ([x 1])\n\t\tx)\n", "\t(a\tb)\t\n"];
    for source in sources {
        let out = format_source(source, &config).expect("formats");
        assert!(!out.contains('\t'), "{out:?}");
    }
}
