//! The command line: what the arguments ask for, and what each input's
//! outcome makes steelwool write, print and exit with.

use vstd::prelude::*;

use crate::diagnostics::{position, position_of};
use crate::diff::{unified, unified_text};
use crate::text::{chars_of, decimal, eq_lit, push_decimal, push_lit, string_of};
use crate::config::{
    config_error_view, from_table_v, merge_all, set_document_v, toml_parse, Config, ConfigError, ConfigErrorV, Layers,
    LayersV,
};
use crate::{error_view, message_v, Error, ErrorV};

verus! {

/// A configuration layer given on the command line.
#[derive(Debug, PartialEq, Eq)]
pub enum Overlay {
    /// `--config-toml TEXT`
    Toml(String),
    /// `--set KEY.PATH=VALUE`
    Override(String),
}

/// What the command line asks for.
#[derive(Debug, PartialEq, Eq)]
pub struct Arguments {
    pub files: Vec<String>,
    pub stdin: bool,
    pub check: bool,
    pub diff: bool,
    pub list_different: bool,
    pub config: Option<String>,
    pub overlays: Vec<Overlay>,
}

/// The command line's request.
#[derive(Debug, PartialEq, Eq)]
pub enum Request {
    /// Print the usage text and stop.
    Help,
    /// Print the version and stop.
    Version,
    /// Format.
    Run(Arguments),
}

pub enum OverlayV {
    Toml(Seq<char>),
    Override(Seq<char>),
}

pub struct ArgumentsV {
    pub files: Seq<Seq<char>>,
    pub stdin: bool,
    pub check: bool,
    pub diff: bool,
    pub list_different: bool,
    pub config: Option<Seq<char>>,
    pub overlays: Seq<OverlayV>,
}

pub enum RequestV {
    Help,
    Version,
    Run(ArgumentsV),
}

pub open spec fn overlay_view(o: Overlay) -> OverlayV {
    match o {
        Overlay::Toml(t) => OverlayV::Toml(t@),
        Overlay::Override(t) => OverlayV::Override(t@),
    }
}

pub open spec fn arguments_view(a: Arguments) -> ArgumentsV {
    ArgumentsV {
        files: a.files@.map_values(|f: String| f@),
        stdin: a.stdin,
        check: a.check,
        diff: a.diff,
        list_different: a.list_different,
        config: match a.config {
            Some(c) => Some(c@),
            None => None,
        },
        overlays: a.overlays@.map_values(|o: Overlay| overlay_view(o)),
    }
}

pub open spec fn request_view(r: Request) -> RequestV {
    match r {
        Request::Help => RequestV::Help,
        Request::Version => RequestV::Version,
        Request::Run(a) => RequestV::Run(arguments_view(a)),
    }
}

/// Nothing asked for yet.
pub open spec fn no_arguments() -> ArgumentsV {
    ArgumentsV {
        files: seq![],
        stdin: false,
        check: false,
        diff: false,
        list_different: false,
        config: None,
        overlays: seq![],
    }
}

/// The request the arguments from the `i`th on make, given what the earlier
/// ones asked for and whether `--` ended the options. An option that takes a
/// value takes the next argument, whatever it is.
pub open spec fn parse_from(args: Seq<Seq<char>>, i: nat, acc: ArgumentsV, ended: bool) -> Result<RequestV, Seq<char>>
    decreases args.len() - i,
{
    if i >= args.len() {
        Ok(RequestV::Run(acc))
    } else {
        let a = args[i as int];
        if ended {
            parse_from(args, i + 1, ArgumentsV { files: acc.files.push(a), ..acc }, true)
        } else if a == "--"@ {
            parse_from(args, i + 1, acc, true)
        } else if a == "-"@ {
            parse_from(args, i + 1, ArgumentsV { stdin: true, ..acc }, false)
        } else if a == "--check"@ {
            parse_from(args, i + 1, ArgumentsV { check: true, ..acc }, false)
        } else if a == "--diff"@ {
            parse_from(args, i + 1, ArgumentsV { diff: true, ..acc }, false)
        } else if a == "--list-different"@ {
            parse_from(args, i + 1, ArgumentsV { list_different: true, ..acc }, false)
        } else if a == "-h"@ || a == "--help"@ {
            Ok(RequestV::Help)
        } else if a == "-V"@ || a == "--version"@ {
            Ok(RequestV::Version)
        } else if a == "--config"@ {
            if i + 1 < args.len() {
                parse_from(args, i + 2, ArgumentsV { config: Some(args[(i + 1) as int]), ..acc }, false)
            } else {
                Err("--config needs a path"@)
            }
        } else if a == "--config-toml"@ {
            if i + 1 < args.len() {
                parse_from(
                    args,
                    i + 2,
                    ArgumentsV { overlays: acc.overlays.push(OverlayV::Toml(args[(i + 1) as int])), ..acc },
                    false,
                )
            } else {
                Err("--config-toml needs a value"@)
            }
        } else if a == "--set"@ {
            if i + 1 < args.len() {
                parse_from(
                    args,
                    i + 2,
                    ArgumentsV { overlays: acc.overlays.push(OverlayV::Override(args[(i + 1) as int])), ..acc },
                    false,
                )
            } else {
                Err("--set needs KEY.PATH=VALUE"@)
            }
        } else if a.len() > 0 && a[0] == '-' {
            Err("unknown option `"@ + a + "`"@)
        } else {
            parse_from(args, i + 1, ArgumentsV { files: acc.files.push(a), ..acc }, false)
        }
    }
}

/// The request a command line makes, its program name left out.
pub open spec fn parse_v(args: Seq<Seq<char>>) -> Result<RequestV, Seq<char>> {
    parse_from(args, 0, no_arguments(), false)
}

pub open spec fn texts(v: Seq<String>) -> Seq<Seq<char>> {
    v.map_values(|s: String| s@)
}

impl Arguments {
    /// True in the modes that report what would change instead of doing it.
    pub fn writes_nothing(&self) -> (r: bool)
        ensures
            r == (self.check || self.diff || self.list_different),
    {
        self.check || self.diff || self.list_different
    }
}

fn copy_string(s: &String) -> (r: String)
    ensures
        r@ == s@,
{
    s.clone()
}

/// Reads the command line, its program name left out.
pub fn parse_arguments(raw: &Vec<String>) -> (r: Result<Request, String>)
    ensures
        match r {
            Ok(request) => parse_v(texts(raw@)) == Ok::<RequestV, Seq<char>>(request_view(request)),
            Err(message) => parse_v(texts(raw@)) == Err::<RequestV, Seq<char>>(message@),
        },
{
    let ghost args = texts(raw@);
    let mut arguments = Arguments {
        files: Vec::new(),
        stdin: false,
        check: false,
        diff: false,
        list_different: false,
        config: None,
        overlays: Vec::new(),
    };
    proof {
        assert(arguments_view(arguments).files =~= Seq::<Seq<char>>::empty());
        assert(arguments_view(arguments).overlays =~= Seq::<OverlayV>::empty());
        assert(arguments_view(arguments) == no_arguments());
    }
    let mut options_ended = false;
    let mut i: usize = 0;
    while i < raw.len()
        invariant
            args == texts(raw@),
            args.len() == raw@.len(),
            i <= raw@.len(),
            parse_v(args) == parse_from(args, i as nat, arguments_view(arguments), options_ended),
        decreases raw@.len() - i,
    {
        let ghost before = arguments_view(arguments);
        let argument = copy_string(&raw[i]);
        assert(args[i as int] == argument@);
        let a = chars_of(argument.as_str());
        if options_ended {
            arguments.files.push(argument);
            proof {
                assert(arguments_view(arguments).files =~= before.files.push(args[i as int]));
            }
            i += 1;
        } else if eq_lit(a.as_slice(), "--") {
            options_ended = true;
            i += 1;
        } else if eq_lit(a.as_slice(), "-") {
            arguments.stdin = true;
            i += 1;
        } else if eq_lit(a.as_slice(), "--check") {
            arguments.check = true;
            i += 1;
        } else if eq_lit(a.as_slice(), "--diff") {
            arguments.diff = true;
            i += 1;
        } else if eq_lit(a.as_slice(), "--list-different") {
            arguments.list_different = true;
            i += 1;
        } else if eq_lit(a.as_slice(), "-h") || eq_lit(a.as_slice(), "--help") {
            return Ok(Request::Help);
        } else if eq_lit(a.as_slice(), "-V") || eq_lit(a.as_slice(), "--version") {
            return Ok(Request::Version);
        } else if eq_lit(a.as_slice(), "--config") {
            if i + 1 >= raw.len() {
                return Err(String::from_str("--config needs a path"));
            }
            let value = copy_string(&raw[i + 1]);
            assert(args[i + 1] == value@);
            arguments.config = Some(value);
            i += 2;
        } else if eq_lit(a.as_slice(), "--config-toml") {
            if i + 1 >= raw.len() {
                return Err(String::from_str("--config-toml needs a value"));
            }
            let value = copy_string(&raw[i + 1]);
            assert(args[i + 1] == value@);
            arguments.overlays.push(Overlay::Toml(value));
            proof {
                assert(arguments_view(arguments).overlays =~= before.overlays.push(OverlayV::Toml(args[(i + 1) as int])));
            }
            i += 2;
        } else if eq_lit(a.as_slice(), "--set") {
            if i + 1 >= raw.len() {
                return Err(String::from_str("--set needs KEY.PATH=VALUE"));
            }
            let value = copy_string(&raw[i + 1]);
            assert(args[i + 1] == value@);
            arguments.overlays.push(Overlay::Override(value));
            proof {
                assert(arguments_view(arguments).overlays =~= before.overlays.push(OverlayV::Override(args[(i + 1) as int])));
            }
            i += 2;
        } else if a.len() > 0 && a[0] == '-' {
            let mut message: Vec<char> = Vec::new();
            push_lit(&mut message, "unknown option `");
            push_lit(&mut message, argument.as_str());
            push_lit(&mut message, "`");
            return Err(string_of(message.as_slice()));
        } else {
            arguments.files.push(argument);
            proof {
                assert(arguments_view(arguments).files =~= before.files.push(args[i as int]));
            }
            i += 1;
        }
    }
    Ok(Request::Run(arguments))
}


// ---------------------------------------------------------------------------
// Outcomes and what they make steelwool do
// ---------------------------------------------------------------------------

/// What one input turned out to need.
#[derive(Debug, PartialEq, Eq)]
pub enum Outcome {
    Unchanged,
    Changed { source: String, formatted: String },
    Failed(String),
}

pub enum OutcomeV {
    Unchanged,
    Changed(Seq<char>, Seq<char>),
    Failed(Seq<char>),
}

pub open spec fn outcome_view(o: Outcome) -> OutcomeV {
    match o {
        Outcome::Unchanged => OutcomeV::Unchanged,
        Outcome::Changed { source, formatted } => OutcomeV::Changed(source@, formatted@),
        Outcome::Failed(message) => OutcomeV::Failed(message@),
    }
}

/// `PATH:LINE:COLUMN: message` for an error that knows where it is, and
/// `PATH: message` for one that does not.
pub open spec fn diagnostic_v(path: Seq<char>, source: Seq<char>, e: ErrorV) -> Seq<char> {
    match crate::offset_v(e) {
        Some(offset) => {
            let at = position_of(source, offset as nat);
            path + ":"@ + decimal(at.line as nat) + ":"@ + decimal(at.column as nat) + ": "@ + message_v(e)
        },
        None => path + ": "@ + message_v(e),
    }
}

/// `PATH:LINE:COLUMN: message` for an error that knows where it is, and
/// `PATH: message` for one that does not.
pub fn diagnostic(path: &str, source: &str, error: &Error) -> (r: String)
    requires
        source@.len() < usize::MAX,
    ensures
        r@ == diagnostic_v(path@, source@, error_view(*error)),
{
    let mut out: Vec<char> = Vec::new();
    push_lit(&mut out, path);
    match error.offset() {
        Some(offset) => {
            let at = position(source, offset);
            push_lit(&mut out, ":");
            push_decimal(&mut out, at.line);
            push_lit(&mut out, ":");
            push_decimal(&mut out, at.column);
        },
        None => {},
    }
    push_lit(&mut out, ": ");
    let message = error.message();
    push_lit(&mut out, message.as_str());
    let r = string_of(out.as_slice());
    assert(r@ =~= diagnostic_v(path@, source@, error_view(*error)));
    r
}

/// What formatting one input came to: unchanged, changed, or a diagnostic.
pub open spec fn outcome_v(shown: Seq<char>, source: Seq<char>, result: Result<Seq<char>, ErrorV>) -> OutcomeV {
    match result {
        Ok(formatted) => if formatted == source {
            OutcomeV::Unchanged
        } else {
            OutcomeV::Changed(source, formatted)
        },
        Err(e) => OutcomeV::Failed(diagnostic_v(shown, source, e)),
    }
}

/// What formatting one input came to.
pub fn outcome_of(shown: &str, source: String, result: Result<String, Error>) -> (r: Outcome)
    requires
        source@.len() < usize::MAX,
    ensures
        outcome_view(r) == outcome_v(
            shown@,
            source@,
            match result {
                Ok(formatted) => Ok(formatted@),
                Err(e) => Err(error_view(e)),
            },
        ),
{
    match result {
        Ok(formatted) => {
            if formatted == source {
                Outcome::Unchanged
            } else {
                Outcome::Changed { source, formatted }
            }
        },
        Err(error) => Outcome::Failed(diagnostic(shown, source.as_str(), &error)),
    }
}

/// Something steelwool does on behalf of an input.
#[derive(Debug, PartialEq, Eq)]
pub enum Action {
    /// Write the formatted text back to the input's file.
    WriteBack(String),
    /// Print to standard output, as is.
    Stdout(String),
    /// Print a line to standard error.
    Stderr(String),
}

pub enum ActionV {
    WriteBack(Seq<char>),
    Stdout(Seq<char>),
    Stderr(Seq<char>),
}

pub open spec fn action_view(a: Action) -> ActionV {
    match a {
        Action::WriteBack(t) => ActionV::WriteBack(t@),
        Action::Stdout(t) => ActionV::Stdout(t@),
        Action::Stderr(t) => ActionV::Stderr(t@),
    }
}

pub open spec fn actions_view(s: Seq<Action>) -> Seq<ActionV> {
    s.map_values(|a: Action| action_view(a))
}

/// In a write-nothing mode, what a changed input is reported with: its diff,
/// its path, and a warning, as the modes ask.
pub open spec fn change_report_v(a: ArgumentsV, shown: Seq<char>, source: Seq<char>, formatted: Seq<char>) -> Seq<ActionV> {
    let diff = if a.diff {
        seq![ActionV::Stdout(unified_text(shown, source, formatted))]
    } else {
        seq![]
    };
    let list = if a.list_different {
        seq![ActionV::Stdout(shown + "\n"@)]
    } else {
        seq![]
    };
    let check = if a.check {
        seq![ActionV::Stderr("steelwool: would reformat "@ + shown)]
    } else {
        seq![]
    };
    diff + list + check
}

/// What steelwool does for one input's outcome: nothing when unchanged, the
/// diagnostic when it failed; when changed, write it back, or in a
/// write-nothing mode report it.
pub open spec fn report_v(a: ArgumentsV, shown: Seq<char>, o: OutcomeV) -> Seq<ActionV> {
    match o {
        OutcomeV::Unchanged => seq![],
        OutcomeV::Failed(message) => seq![ActionV::Stderr("steelwool: "@ + message)],
        OutcomeV::Changed(source, formatted) => if !(a.check || a.diff || a.list_different) {
            seq![ActionV::WriteBack(formatted)]
        } else {
            change_report_v(a, shown, source, formatted)
        },
    }
}

fn change_report(arguments: &Arguments, shown: &str, source: &String, formatted: &String) -> (r: Vec<Action>)
    requires
        source@.len() + formatted@.len() < usize::MAX,
    ensures
        actions_view(r@) == change_report_v(arguments_view(*arguments), shown@, source@, formatted@),
{
    let ghost a = arguments_view(*arguments);
    let mut r: Vec<Action> = Vec::new();
    let ghost diff = if a.diff {
        seq![ActionV::Stdout(unified_text(shown@, source@, formatted@))]
    } else {
        Seq::<ActionV>::empty()
    };
    let ghost list = if a.list_different {
        seq![ActionV::Stdout(shown@ + "\n"@)]
    } else {
        Seq::<ActionV>::empty()
    };
    let ghost check = if a.check {
        seq![ActionV::Stderr("steelwool: would reformat "@ + shown@)]
    } else {
        Seq::<ActionV>::empty()
    };
    if arguments.diff {
        r.push(Action::Stdout(unified(shown, source.as_str(), formatted.as_str())));
    }
    assert(actions_view(r@) =~= diff);
    if arguments.list_different {
        let mut line: Vec<char> = Vec::new();
        push_lit(&mut line, shown);
        push_lit(&mut line, "\n");
        let ghost before = r@;
        r.push(Action::Stdout(string_of(line.as_slice())));
        assert(r@ == before.push(r@.last()));
    }
    assert(actions_view(r@) =~= diff + list);
    if arguments.check {
        let mut line: Vec<char> = Vec::new();
        push_lit(&mut line, "steelwool: would reformat ");
        push_lit(&mut line, shown);
        let ghost before = r@;
        r.push(Action::Stderr(string_of(line.as_slice())));
        assert(r@ == before.push(r@.last()));
    }
    assert(actions_view(r@) =~= diff + list + check);
    r
}

/// What steelwool does for one input's outcome.
pub fn report_actions(arguments: &Arguments, shown: &str, outcome: &Outcome) -> (r: Vec<Action>)
    requires
        outcome matches Outcome::Changed { source, formatted } ==> source@.len() + formatted@.len() < usize::MAX,
    ensures
        actions_view(r@) == report_v(arguments_view(*arguments), shown@, outcome_view(*outcome)),
{
    match outcome {
        Outcome::Unchanged => {
            let r: Vec<Action> = Vec::new();
            assert(actions_view(r@) =~= Seq::<ActionV>::empty());
            r
        },
        Outcome::Failed(message) => {
            let mut line: Vec<char> = Vec::new();
            push_lit(&mut line, "steelwool: ");
            push_lit(&mut line, message.as_str());
            let mut r: Vec<Action> = Vec::new();
            r.push(Action::Stderr(string_of(line.as_slice())));
            assert(actions_view(r@) =~= seq![ActionV::Stderr("steelwool: "@ + message@)]);
            r
        },
        Outcome::Changed { source, formatted } => {
            if !arguments.writes_nothing() {
                let mut r: Vec<Action> = Vec::new();
                r.push(Action::WriteBack(copy_string(formatted)));
                assert(actions_view(r@) =~= seq![ActionV::WriteBack(formatted@)]);
                r
            } else {
                change_report(arguments, shown, source, formatted)
            }
        },
    }
}

/// Whether any input changed and whether anything failed, so far.
#[derive(Debug, Clone, Copy, PartialEq, Eq, Structural)]
pub struct Tally {
    pub changed: bool,
    pub failed: bool,
}

/// The tally after one more outcome; `write_failed` says that writing a
/// changed input back failed.
pub open spec fn tally_v(t: Tally, o: OutcomeV, write_failed: bool) -> Tally {
    match o {
        OutcomeV::Unchanged => t,
        OutcomeV::Failed(_) => Tally { failed: true, ..t },
        OutcomeV::Changed(_, _) => Tally { changed: true, failed: t.failed || write_failed },
    }
}

/// The tally after one more outcome.
pub fn tally(t: Tally, outcome: &Outcome, write_failed: bool) -> (r: Tally)
    ensures
        r == tally_v(t, outcome_view(*outcome), write_failed),
{
    match outcome {
        Outcome::Unchanged => t,
        Outcome::Failed(_) => Tally { failed: true, ..t },
        Outcome::Changed { .. } => Tally { changed: true, failed: t.failed || write_failed },
    }
}

/// The exit code: 2 when anything failed, else 1 when something would
/// change in a write-nothing mode, else 0.
pub open spec fn exit_code_v(failed: bool, would_change: bool) -> u8 {
    if failed {
        2
    } else if would_change {
        1
    } else {
        0
    }
}

pub fn exit_code(failed: bool, would_change: bool) -> (code: u8)
    ensures
        code == exit_code_v(failed, would_change),
{
    if failed {
        2
    } else if would_change {
        1
    } else {
        0
    }
}

/// The exit code once every input is reported.
pub fn report_code(arguments: &Arguments, t: Tally) -> (code: u8)
    ensures
        code == exit_code_v(t.failed, t.changed && (arguments.check || arguments.diff || arguments.list_different)),
{
    exit_code(t.failed, t.changed && arguments.writes_nothing())
}

/// What formatting standard input makes steelwool print, and the exit code:
/// a diagnostic and 2 on failure; the formatted text and 0 outside the
/// write-nothing modes; nothing and 0 when nothing changes; else the
/// reports of a change and 1.
pub open spec fn stdin_v(a: ArgumentsV, source: Seq<char>, result: Result<Seq<char>, ErrorV>) -> (Seq<ActionV>, u8) {
    match result {
        Err(e) => (seq![ActionV::Stderr("steelwool: "@ + diagnostic_v("<stdin>"@, source, e))], 2),
        Ok(formatted) => if !(a.check || a.diff || a.list_different) {
            (seq![ActionV::Stdout(formatted)], 0)
        } else if formatted == source {
            (seq![], 0)
        } else {
            (change_report_v(a, "<stdin>"@, source, formatted), 1)
        },
    }
}

/// What formatting standard input makes steelwool print, and the exit code.
pub fn stdin_actions(arguments: &Arguments, source: &String, result: Result<String, Error>) -> (r: (Vec<Action>, u8))
    requires
        source@.len() < usize::MAX,
        result matches Ok(formatted) ==> source@.len() + formatted@.len() < usize::MAX,
    ensures
        (actions_view(r.0@), r.1) == stdin_v(
            arguments_view(*arguments),
            source@,
            match result {
                Ok(formatted) => Ok(formatted@),
                Err(e) => Err(error_view(e)),
            },
        ),
{
    let mut r: Vec<Action> = Vec::new();
    match result {
        Err(error) => {
            let mut line: Vec<char> = Vec::new();
            push_lit(&mut line, "steelwool: ");
            let d = diagnostic("<stdin>", source.as_str(), &error);
            push_lit(&mut line, d.as_str());
            r.push(Action::Stderr(string_of(line.as_slice())));
            assert(actions_view(r@) =~= seq![ActionV::Stderr(line@)]);
            (r, 2)
        },
        Ok(formatted) => {
            if !arguments.writes_nothing() {
                let ghost f = formatted@;
                r.push(Action::Stdout(formatted));
                assert(actions_view(r@) =~= seq![ActionV::Stdout(f)]);
                return (r, 0);
            }
            if formatted == *source {
                assert(actions_view(r@) =~= Seq::<ActionV>::empty());
                return (r, 0);
            }
            (change_report(arguments, "<stdin>", source, &formatted), 1)
        },
    }
}


// ---------------------------------------------------------------------------
// Laws of reporting
// ---------------------------------------------------------------------------

/// An error in one input does not stop the others, and it decides the exit
/// code: once anything failed, the tally stays failed and the code is 2.
pub proof fn lemma_failure_sticks(t: Tally, o: OutcomeV, write_failed: bool, would_change: bool)
    requires
        t.failed,
    ensures
        tally_v(t, o, write_failed).failed,
        exit_code_v(tally_v(t, o, write_failed).failed, would_change) == 2,
{
}

/// The write-nothing modes write nothing back: in them no outcome yields a
/// write.
pub proof fn lemma_write_nothing_modes_write_nothing(a: ArgumentsV, shown: Seq<char>, o: OutcomeV)
    requires
        a.check || a.diff || a.list_different,
    ensures
        forall|i: int| 0 <= i < report_v(a, shown, o).len() ==> !(#[trigger] report_v(a, shown, o)[i] is WriteBack),
{
}


/// Rule C3: an input whose formatted text equals it is not written back, nor
/// reported.
pub proof fn lemma_unchanged_input_is_left_alone(a: ArgumentsV, shown: Seq<char>, source: Seq<char>)
    ensures
        report_v(a, shown, outcome_v(shown, source, Ok(source))).len() == 0,
{
}


// ---------------------------------------------------------------------------
// Configuration layers
// ---------------------------------------------------------------------------

/// The layers after merging the TOML document `text` from `origin`, or the
/// syntax error that stops it.
pub open spec fn toml_layer_v(l: LayersV, text: Seq<char>, origin: Seq<char>) -> Result<LayersV, ConfigErrorV> {
    match toml_parse(text) {
        Err(message) => Err(ConfigErrorV::Syntax(origin, message)),
        Ok(t) => Ok(LayersV { layers: l.layers.push(t), origin }),
    }
}

/// The layers after a `KEY.PATH=VALUE` override, or why it is malformed.
pub open spec fn set_layer_v(l: LayersV, argument: Seq<char>) -> Result<LayersV, ConfigErrorV> {
    match set_document_v(argument) {
        None => Err(ConfigErrorV::BadSet(argument)),
        Some(document) => match toml_parse(document) {
            Err(_) => Err(ConfigErrorV::BadSet(argument)),
            Ok(t) => Ok(LayersV { layers: l.layers.push(t), origin: "--set "@ + argument }),
        },
    }
}

/// Rule C11: the layers, lowest first: none, then the configuration file
/// (its text and the name errors give it), then each command line overlay in
/// the order given.
pub open spec fn layers_v(file: Option<(Seq<char>, Seq<char>)>, overlays: Seq<OverlayV>) -> Result<LayersV, ConfigErrorV>
    decreases overlays.len(),
{
    if overlays.len() == 0 {
        let initial = LayersV { layers: seq![], origin: "configuration"@ };
        match file {
            None => Ok(initial),
            Some((text, origin)) => toml_layer_v(initial, text, origin),
        }
    } else {
        match layers_v(file, overlays.drop_last()) {
            Err(e) => Err(e),
            Ok(l) => match overlays.last() {
                OverlayV::Toml(text) => toml_layer_v(l, text, "--config-toml"@),
                OverlayV::Override(argument) => set_layer_v(l, argument),
            },
        }
    }
}

/// The configuration the layers give, or the first error on the way.
pub open spec fn resolved_v(file: Option<(Seq<char>, Seq<char>)>, overlays: Seq<OverlayV>) -> Result<Config, ConfigErrorV> {
    match layers_v(file, overlays) {
        Err(e) => Err(e),
        Ok(l) => from_table_v(merge_all(l.layers), l.origin),
    }
}

/// A configuration file's text and name, as plain values.
pub open spec fn file_view(file: Option<(String, String)>) -> Option<(Seq<char>, Seq<char>)> {
    match file {
        Some((text, origin)) => Some((text@, origin@)),
        None => None,
    }
}

/// Builds the configuration from the configuration file, if one was found or
/// given (its text and the name errors give it), and the command line's
/// overlays in order. `--config` replaces discovery by deciding which file
/// is passed here.
pub fn resolve_layers(file: Option<(String, String)>, overlays: &Vec<Overlay>) -> (r: Result<Config, ConfigError>)
    ensures
        match r {
            Ok(config) => resolved_v(
                file_view(file),
                overlays@.map_values(|o: Overlay| overlay_view(o)),
            ) == Ok::<Config, ConfigErrorV>(config),
            Err(e) => resolved_v(
                file_view(file),
                overlays@.map_values(|o: Overlay| overlay_view(o)),
            ) == Err::<Config, ConfigErrorV>(config_error_view(e)),
        },
{
    let ghost fv = file_view(file);
    let ghost ov = overlays@.map_values(|o: Overlay| overlay_view(o));
    let mut layers = Layers::new();
    match file {
        Some((text, origin)) => {
            let pushed = layers.push_toml(text.as_str(), origin.as_str());
            if let Err(e) = pushed {
                proof {
                    assert(ov.take(0) =~= Seq::<OverlayV>::empty());
                    lemma_layers_error_stays(fv, ov, 0);
                }
                return Err(e);
            }
        },
        None => {},
    }
    let mut i: usize = 0;
    assert(ov.take(0) =~= Seq::<OverlayV>::empty());
    while i < overlays.len()
        invariant
            ov == overlays@.map_values(|o: Overlay| overlay_view(o)),
            fv == file_view(file),
            i <= overlays@.len(),
            layers_v(fv, ov.take(i as int)) == Ok::<LayersV, ConfigErrorV>(layers@),
        decreases overlays@.len() - i,
    {
        assert(ov.take(i + 1).drop_last() =~= ov.take(i as int));
        assert(ov.take(i + 1).last() == overlay_view(overlays@[i as int]));
        match &overlays[i] {
            Overlay::Toml(text) => {
                let pushed = layers.push_toml(text.as_str(), "--config-toml");
                if let Err(e) = pushed {
                    proof {
                        lemma_layers_error_stays(fv, ov, (i + 1) as nat);
                    }
                    return Err(e);
                }
            },
            Overlay::Override(argument) => {
                let pushed = layers.push_set(argument.as_str());
                if let Err(e) = pushed {
                    proof {
                        lemma_layers_error_stays(fv, ov, (i + 1) as nat);
                    }
                    return Err(e);
                }
            },
        }
        i += 1;
    }
    assert(ov.take(overlays@.len() as int) =~= ov);
    layers.resolve()
}

/// Once a layer is refused, later overlays change nothing.
proof fn lemma_layers_error_stays(file: Option<(Seq<char>, Seq<char>)>, overlays: Seq<OverlayV>, k: nat)
    requires
        k <= overlays.len(),
        layers_v(file, overlays.take(k as int)) is Err,
    ensures
        layers_v(file, overlays) == layers_v(file, overlays.take(k as int)),
    decreases overlays.len() - k,
{
    if k < overlays.len() {
        assert(overlays.take((k + 1) as int).drop_last() =~= overlays.take(k as int));
        lemma_layers_error_stays(file, overlays, k + 1);
    } else {
        assert(overlays.take(k as int) =~= overlays);
    }
}

} // verus!
