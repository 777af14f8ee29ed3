//! steelwool: an opinionated formatter for Steel source.

pub mod cli;
pub mod config;
pub mod cst;
pub mod diagnostics;
pub mod diff;
pub mod layout;
pub mod passes;
pub mod steel;
pub mod text;
pub mod verify;

use vstd::prelude::*;

pub use config::Config;
use config::{config_error_view, config_message_v, ConfigError, ConfigErrorV};
use text::{decimal, push_decimal, push_lit, string_of};
use cst::tree_of;
use cst::NodeV;
use layout::{
    all_clean, all_tabless, all_tidy, blank_char, deep_clean, lemma_deep_clean_ends_clean, lemma_render_ends_with_one_newline,
    lemma_render_has_no_trailing_whitespace, lemma_render_writes_no_tab, render_v, tabless,
};
use passes::{lemma_passes_add_no_tab, lemma_passes_keep_texts_clean, lemma_passes_keep_texts_tidy, passes_v};
use verify::equivalence_v;

verus! {

/// Everything that can stop steelwool from producing output.
#[derive(Debug, Clone, PartialEq, Eq)]
pub enum Error {
    /// The lexer rejected the input.
    Lex { message: String, offset: u32 },
    /// A list was opened and never closed.
    UnclosedList { offset: u32 },
    /// A closing delimiter with no matching opening delimiter.
    UnexpectedClose { offset: u32 },
    /// A closing delimiter of a different shape than its opener.
    MismatchedDelimiter { offset: u32 },
    /// A quote or unquote prefix with no datum after it.
    DanglingPrefix { offset: u32 },
    /// Formatting produced a different program.
    ProgramChanged,
    /// Formatting produced output the Steel parser rejects.
    OutputRejected(String),
    /// Formatting is not stable after a second pass.
    NotIdempotent,
    /// The configuration is unusable.
    Config(ConfigError),
}

/// An error as a plain value.
pub enum ErrorV {
    Lex(Seq<char>, u32),
    UnclosedList(u32),
    UnexpectedClose(u32),
    MismatchedDelimiter(u32),
    DanglingPrefix(u32),
    ProgramChanged,
    OutputRejected(Seq<char>),
    NotIdempotent,
    Config(ConfigErrorV),
}

pub open spec fn error_view(e: Error) -> ErrorV {
    match e {
        Error::Lex { message, offset } => ErrorV::Lex(message@, offset),
        Error::UnclosedList { offset } => ErrorV::UnclosedList(offset),
        Error::UnexpectedClose { offset } => ErrorV::UnexpectedClose(offset),
        Error::MismatchedDelimiter { offset } => ErrorV::MismatchedDelimiter(offset),
        Error::DanglingPrefix { offset } => ErrorV::DanglingPrefix(offset),
        Error::ProgramChanged => ErrorV::ProgramChanged,
        Error::OutputRejected(message) => ErrorV::OutputRejected(message@),
        Error::NotIdempotent => ErrorV::NotIdempotent,
        Error::Config(error) => ErrorV::Config(config_error_view(error)),
    }
}


/// The byte offset an error points at, for the errors that know one.
pub open spec fn offset_v(e: ErrorV) -> Option<u32> {
    match e {
        ErrorV::Lex(_, offset) => Some(offset),
        ErrorV::UnclosedList(offset) => Some(offset),
        ErrorV::UnexpectedClose(offset) => Some(offset),
        ErrorV::MismatchedDelimiter(offset) => Some(offset),
        ErrorV::DanglingPrefix(offset) => Some(offset),
        _ => None,
    }
}

impl Error {
    /// The byte offset the error points at, for the errors that know one.
    pub fn offset(&self) -> (r: Option<u32>)
        ensures
            r == offset_v(error_view(*self)),
    {
        match self {
            Error::Lex { offset, .. } => Some(*offset),
            Error::UnclosedList { offset } => Some(*offset),
            Error::UnexpectedClose { offset } => Some(*offset),
            Error::MismatchedDelimiter { offset } => Some(*offset),
            Error::DanglingPrefix { offset } => Some(*offset),
            _ => None,
        }
    }
}

/// What formatting `source` gives: the laid out text of its tree after the
/// passes, provided that text is the same program; otherwise why not.
pub open spec fn format_v(source: Seq<char>, config: Config) -> Result<Seq<char>, ErrorV> {
    match tree_of(source) {
        Err(e) => Err(e),
        Ok(nodes) => {
            let out = render_v(passes_v(nodes, config.passes), config);
            match equivalence_v(source, out) {
                Ok(()) => Ok(out),
                Err(e) => Err(e),
            }
        },
    }
}

/// Formats `source`, refusing to return output that is not the same program
/// by the datum oracle (rule V1). The Steel parser's verdicts (rule V2) are
/// not consulted here: the parser can panic, so the caller runs it and hands
/// its verdicts on the input and on this output to `verify::check_verdicts`.
pub fn format_source(source: &str, config: &Config) -> (r: Result<String, Error>)
    ensures
        match r {
            Ok(out) => format_v(source@, *config) == Ok::<Seq<char>, ErrorV>(out@),
            Err(e) => format_v(source@, *config) == Err::<Seq<char>, ErrorV>(error_view(e)),
        },
{
    let mut nodes = cst::build(source)?;
    passes::apply(&mut nodes, config);
    let formatted = layout::render(nodes.as_slice(), config);
    verify::check_equivalence(source, formatted.as_str())?;
    Ok(formatted)
}


/// What an error says to the user.
pub open spec fn message_v(e: ErrorV) -> Seq<char> {
    match e {
        ErrorV::Lex(message, offset) => "byte "@ + decimal(offset as nat) + ": "@ + message,
        ErrorV::UnclosedList(offset) => "byte "@ + decimal(offset as nat) + ": unclosed list"@,
        ErrorV::UnexpectedClose(offset) => "byte "@ + decimal(offset as nat) + ": unexpected closing delimiter"@,
        ErrorV::MismatchedDelimiter(offset) => "byte "@ + decimal(offset as nat)
            + ": mismatched closing delimiter"@,
        ErrorV::DanglingPrefix(offset) => "byte "@ + decimal(offset as nat)
            + ": quote prefix with nothing after it"@,
        ErrorV::ProgramChanged => "internal error: formatting changed the program"@,
        ErrorV::OutputRejected(message) => "internal error: the Steel parser rejected the output: "@ + message,
        ErrorV::NotIdempotent => "internal error: formatting is not idempotent"@,
        ErrorV::Config(error) => config_message_v(error),
    }
}

impl Error {
    /// What the error says to the user.
    pub fn message(&self) -> (m: String)
        ensures
            m@ == message_v(error_view(*self)),
    {
        let mut out: Vec<char> = Vec::new();
        match self {
            Error::Lex { message, offset } => {
                push_lit(&mut out, "byte ");
                push_decimal(&mut out, *offset as usize);
                push_lit(&mut out, ": ");
                push_lit(&mut out, message.as_str());
            },
            Error::UnclosedList { offset } => {
                push_lit(&mut out, "byte ");
                push_decimal(&mut out, *offset as usize);
                push_lit(&mut out, ": unclosed list");
            },
            Error::UnexpectedClose { offset } => {
                push_lit(&mut out, "byte ");
                push_decimal(&mut out, *offset as usize);
                push_lit(&mut out, ": unexpected closing delimiter");
            },
            Error::MismatchedDelimiter { offset } => {
                push_lit(&mut out, "byte ");
                push_decimal(&mut out, *offset as usize);
                push_lit(&mut out, ": mismatched closing delimiter");
            },
            Error::DanglingPrefix { offset } => {
                push_lit(&mut out, "byte ");
                push_decimal(&mut out, *offset as usize);
                push_lit(&mut out, ": quote prefix with nothing after it");
            },
            Error::ProgramChanged => {
                push_lit(&mut out, "internal error: formatting changed the program");
            },
            Error::OutputRejected(message) => {
                push_lit(&mut out, "internal error: the Steel parser rejected the output: ");
                push_lit(&mut out, message.as_str());
            },
            Error::NotIdempotent => {
                push_lit(&mut out, "internal error: formatting is not idempotent");
            },
            Error::Config(error) => {
                let m = error.message();
                return m;
            },
        }
        let m = string_of(out.as_slice());
        assert(m@ =~= message_v(error_view(*self)));
        m
    }
}

impl From<ConfigError> for Error {
    fn from(error: ConfigError) -> (e: Error) {
        Error::Config(error)
    }
}

impl vstd::std_specs::convert::FromSpecImpl<ConfigError> for Error {
    open spec fn obeys_from_spec() -> bool {
        true
    }

    open spec fn from_spec(error: ConfigError) -> Error {
        Error::Config(error)
    }
}


/// Rule V3: whatever `format_source` returns is the same program as its
/// input, by the oracle's rules.
pub proof fn lemma_format_keeps_program(source: Seq<char>, config: Config)
    requires
        format_v(source, config) is Ok,
    ensures
        equivalence_v(source, format_v(source, config)->Ok_0) == Ok::<(), ErrorV>(()),
{
}

/// Rule L3: formatted output is empty or ends with a newline.
pub proof fn lemma_format_ends_with_newline(source: Seq<char>, config: Config)
    requires
        format_v(source, config) is Ok,
    ensures
        format_v(source, config)->Ok_0.len() == 0 || format_v(source, config)->Ok_0.last() == '\n',
{
}

/// Rule L3: when every atom, comment and verbatim text of the forms is
/// non-empty and does not end in a newline, the forms are written as
/// nothing when there are none, and otherwise as text that ends in exactly
/// one newline.
pub proof fn lemma_forms_end_with_one_newline(nodes: Seq<NodeV>, config: Config)
    requires
        all_clean(nodes),
    ensures
        ({
            let out = render_v(passes_v(nodes, config.passes), config);
            &&& nodes.len() == 0 ==> out.len() == 0
            &&& nodes.len() > 0 ==> out.len() >= 2 && out.last() == '\n' && out[out.len() - 2] != '\n'
        }),
{
    lemma_passes_keep_texts_clean(nodes, config.passes);
    let p = passes_v(nodes, config.passes);
    if p.len() > 0 {
        assert(deep_clean(p[p.len() - 1]));
        lemma_deep_clean_ends_clean(p.last());
    }
    lemma_render_ends_with_one_newline(p, config);
}

/// Rule L3 for `format_source`: where the tree of the input has only clean
/// texts (non-empty, not ending in a newline), the output is empty exactly
/// when the input has no forms, and otherwise ends in exactly one newline.
pub proof fn lemma_format_ends_with_one_newline(source: Seq<char>, config: Config)
    requires
        format_v(source, config) is Ok,
        all_clean(tree_of(source)->Ok_0),
    ensures
        ({
            let out = format_v(source, config)->Ok_0;
            &&& tree_of(source)->Ok_0.len() == 0 ==> out.len() == 0
            &&& tree_of(source)->Ok_0.len() > 0 ==> out.len() >= 2 && out.last() == '\n' && out[out.len() - 2] != '\n'
        }),
{
    lemma_forms_end_with_one_newline(tree_of(source)->Ok_0, config);
}

/// Rule L4: when every text of the forms is tidy (not empty, not starting
/// with a newline, not ending in white space, with no white space before a
/// newline, and a line comment on one line), no line of the formatted forms
/// ends in white space.
pub proof fn lemma_forms_have_no_trailing_whitespace(nodes: Seq<NodeV>, config: Config)
    requires
        all_tidy(nodes),
    ensures
        ({
            let out = render_v(passes_v(nodes, config.passes), config);
            forall|i: int| 0 <= i < out.len() && #[trigger] out[i] == '\n' ==> i > 0 && !blank_char(out[i - 1])
        }),
{
    lemma_passes_keep_texts_tidy(nodes, config.passes);
    lemma_render_has_no_trailing_whitespace(passes_v(nodes, config.passes), config);
}

/// Rule L4 for `format_source`: where the tree of the input has only tidy
/// texts, no line of the output ends in white space.
pub proof fn lemma_format_has_no_trailing_whitespace(source: Seq<char>, config: Config)
    requires
        format_v(source, config) is Ok,
        all_tidy(tree_of(source)->Ok_0),
    ensures
        ({
            let out = format_v(source, config)->Ok_0;
            forall|i: int| 0 <= i < out.len() && #[trigger] out[i] == '\n' ==> i > 0 && !blank_char(out[i - 1])
        }),
{
    lemma_forms_have_no_trailing_whitespace(tree_of(source)->Ok_0, config);
}

/// Rule L5: formatting writes no tab of its own: when no text of the forms
/// holds a tab, the formatted forms hold none.
pub proof fn lemma_forms_get_no_tab(nodes: Seq<NodeV>, config: Config)
    requires
        all_tabless(nodes),
    ensures
        tabless(render_v(passes_v(nodes, config.passes), config)),
{
    lemma_passes_add_no_tab(nodes, config.passes);
    lemma_render_writes_no_tab(passes_v(nodes, config.passes), config);
}

/// Rule L5 for `format_source`: where no text of the input's tree holds a
/// tab, the output holds none.
pub proof fn lemma_format_writes_no_tab(source: Seq<char>, config: Config)
    requires
        format_v(source, config) is Ok,
        all_tabless(tree_of(source)->Ok_0),
    ensures
        tabless(format_v(source, config)->Ok_0),
{
    lemma_forms_get_no_tab(tree_of(source)->Ok_0, config);
}

} // verus!
