//! The command line of the checkpoint converter.

use vstd::prelude::*;

use crate::convert::names::Component;
use crate::text::{owned, parse_unsigned, pieces, same_text, split, trim, trimmed, unsigned_number, views};

verus! {

/// A command-line argument: its text, or nothing where it is not valid UTF-8.
pub open spec fn argument_text(arg: Option<String>) -> Option<Seq<char>> {
    match arg {
        Some(text) => Some(text@),
        None => None,
    }
}

/// The texts of the arguments.
pub open spec fn argument_texts(args: Seq<Option<String>>) -> Seq<Option<Seq<char>>> {
    args.map_values(|arg: Option<String>| argument_text(arg))
}

/// An option that takes a value.
#[derive(Clone, Copy, Debug, PartialEq, Eq, Structural)]
pub enum Flag {
    Component,
    Input,
    Output,
    SilenceRaw,
    SilenceShape,
}

impl Flag {
    /// How the option is written.
    pub open spec fn text(self) -> Seq<char> {
        match self {
            Flag::Component => "--component"@,
            Flag::Input => "--input"@,
            Flag::Output => "--output"@,
            Flag::SilenceRaw => "--silence-raw"@,
            Flag::SilenceShape => "--silence-shape"@,
        }
    }

    /// How the option is written.
    pub fn name(self) -> (text: &'static str)
        ensures
            text@ == self.text(),
    {
        match self {
            Flag::Component => "--component",
            Flag::Input => "--input",
            Flag::Output => "--output",
            Flag::SilenceRaw => "--silence-raw",
            Flag::SilenceShape => "--silence-shape",
        }
    }
}

/// What a command line asks for. The paths are given by their places among the
/// arguments, since a path need not be valid UTF-8.
#[derive(Debug)]
pub struct Options {
    pub component: Component,
    pub input: Option<usize>,
    pub output: Option<usize>,
    pub list: bool,
    pub silence_raw: Option<usize>,
    pub silence_shape: Option<Vec<usize>>,
}

/// Why a command line was refused.
#[derive(Debug)]
pub enum OptionsError {
    /// The help text was asked for.
    Help,
    ArgumentNotUtf8,
    MissingValue(Flag),
    ValueNotUtf8(Flag),
    UnsupportedComponent(String),
    /// A dimension of the silence shape is no whole number.
    InvalidDimension(String),
    /// A dimension of the silence shape is zero.
    EmptyDimension,
    UnknownArgument(String),
    MissingComponent,
    SilenceOptionElsewhere,
    MissingInput,
    MissingOutput,
    MissingSilenceShape,
    MissingSilenceInput,
}

/// The mathematical model of an `OptionsError`.
pub ghost enum OptionsFault {
    Help,
    ArgumentNotUtf8,
    MissingValue(Flag),
    ValueNotUtf8(Flag),
    UnsupportedComponent(Seq<char>),
    InvalidDimension(Seq<char>),
    EmptyDimension,
    UnknownArgument(Seq<char>),
    MissingComponent,
    SilenceOptionElsewhere,
    MissingInput,
    MissingOutput,
    MissingSilenceShape,
    MissingSilenceInput,
}

impl OptionsError {
    pub open spec fn view(&self) -> OptionsFault {
        match self {
            OptionsError::Help => OptionsFault::Help,
            OptionsError::ArgumentNotUtf8 => OptionsFault::ArgumentNotUtf8,
            OptionsError::MissingValue(flag) => OptionsFault::MissingValue(*flag),
            OptionsError::ValueNotUtf8(flag) => OptionsFault::ValueNotUtf8(*flag),
            OptionsError::UnsupportedComponent(value) => OptionsFault::UnsupportedComponent(value@),
            OptionsError::InvalidDimension(dim) => OptionsFault::InvalidDimension(dim@),
            OptionsError::EmptyDimension => OptionsFault::EmptyDimension,
            OptionsError::UnknownArgument(arg) => OptionsFault::UnknownArgument(arg@),
            OptionsError::MissingComponent => OptionsFault::MissingComponent,
            OptionsError::SilenceOptionElsewhere => OptionsFault::SilenceOptionElsewhere,
            OptionsError::MissingInput => OptionsFault::MissingInput,
            OptionsError::MissingOutput => OptionsFault::MissingOutput,
            OptionsError::MissingSilenceShape => OptionsFault::MissingSilenceShape,
            OptionsError::MissingSilenceInput => OptionsFault::MissingSilenceInput,
        }
    }
}

/// What the arguments so far ask for.
pub ghost struct Request {
    pub component: Option<Component>,
    pub input: Option<int>,
    pub output: Option<int>,
    pub list: bool,
    pub silence_raw: Option<int>,
    pub silence_shape: Option<Seq<usize>>,
}

impl Request {
    /// What no arguments ask for.
    pub open spec fn nothing() -> Request {
        Request {
            component: None,
            input: None,
            output: None,
            list: false,
            silence_raw: None,
            silence_shape: None,
        }
    }

    /// The request with the value of an option.
    pub open spec fn with(self, flag: Flag, at: int, value: Option<Seq<char>>) -> Result<
        Request,
        OptionsFault,
    > {
        match flag {
            Flag::Input => Ok(Request { input: Some(at), ..self }),
            Flag::Output => Ok(Request { output: Some(at), ..self }),
            Flag::SilenceRaw => Ok(Request { silence_raw: Some(at), ..self }),
            Flag::Component => match value {
                None => Err(OptionsFault::ValueNotUtf8(flag)),
                Some(text) => match component_named(text) {
                    Some(component) => Ok(Request { component: Some(component), ..self }),
                    None => Err(OptionsFault::UnsupportedComponent(text)),
                },
            },
            Flag::SilenceShape => match value {
                None => Err(OptionsFault::ValueNotUtf8(flag)),
                Some(text) => match shape_named(text) {
                    Ok(shape) => Ok(Request { silence_shape: Some(shape), ..self }),
                    Err(fault) => Err(fault),
                },
            },
        }
    }
}

/// The component with the given name.
pub open spec fn component_named(text: Seq<char>) -> Option<Component> {
    if exists|c: Component| #[trigger] c.label() == text {
        Some(choose|c: Component| #[trigger] c.label() == text)
    } else {
        None
    }
}

/// The dimensions that a list of texts spells, after `done`; or the first text
/// that spells none.
pub open spec fn shape_from(dims: Seq<Seq<char>>, at: int, done: Seq<usize>) -> Result<
    Seq<usize>,
    OptionsFault,
>
    decreases dims.len() - at,
{
    if at >= dims.len() {
        Ok(done)
    } else {
        match unsigned_number(trimmed(dims[at]), usize::MAX as int) {
            None => Err(OptionsFault::InvalidDimension(dims[at])),
            Some(n) => shape_from(dims, at + 1, done.push(n as usize)),
        }
    }
}

/// The shape that a comma-separated text spells: whole numbers, none of them
/// zero.
pub open spec fn shape_named(text: Seq<char>) -> Result<Seq<usize>, OptionsFault> {
    match shape_from(pieces(text, ','), 0, Seq::empty()) {
        Err(fault) => Err(fault),
        Ok(shape) => if shape.contains(0) {
            Err(OptionsFault::EmptyDimension)
        } else {
            Ok(shape)
        },
    }
}

/// The option that takes a value and is written `text`.
pub open spec fn flag_named(text: Seq<char>) -> Option<Flag> {
    if text == "--component"@ {
        Some(Flag::Component)
    } else if text == "--input"@ {
        Some(Flag::Input)
    } else if text == "--output"@ {
        Some(Flag::Output)
    } else if text == "--silence-raw"@ {
        Some(Flag::SilenceRaw)
    } else if text == "--silence-shape"@ {
        Some(Flag::SilenceShape)
    } else {
        None
    }
}

/// What the arguments from `at` on make of the request so far.
pub open spec fn request_from(args: Seq<Option<Seq<char>>>, at: int, so_far: Request) -> Result<
    Request,
    OptionsFault,
>
    decreases args.len() - at,
{
    if at >= args.len() {
        Ok(so_far)
    } else {
        match args[at] {
            None => Err(OptionsFault::ArgumentNotUtf8),
            Some(text) => if text == "-h"@ || text == "--help"@ {
                Err(OptionsFault::Help)
            } else if text == "--list"@ {
                request_from(args, at + 1, Request { list: true, ..so_far })
            } else {
                match flag_named(text) {
                    None => Err(OptionsFault::UnknownArgument(text)),
                    Some(flag) => if at + 1 >= args.len() {
                        Err(OptionsFault::MissingValue(flag))
                    } else {
                        match so_far.with(flag, at + 1, args[at + 1]) {
                            Err(fault) => Err(fault),
                            Ok(more) => request_from(args, at + 2, more),
                        }
                    },
                }
            },
        }
    }
}

/// What a command line asks for. The first argument is the program.
pub open spec fn request(args: Seq<Option<Seq<char>>>) -> Result<Request, OptionsFault> {
    match request_from(args, 1, Request::nothing()) {
        Err(fault) => Err(fault),
        Ok(asked) => match asked.component {
            None => Err(OptionsFault::MissingComponent),
            Some(component) => if component != Component::Silence && (asked.silence_raw is Some
                || asked.silence_shape is Some) {
                Err(OptionsFault::SilenceOptionElsewhere)
            } else {
                Ok(asked)
            },
        },
    }
}

/// A place among the arguments.
pub open spec fn place(at: Option<usize>) -> Option<int> {
    match at {
        Some(at) => Some(at as int),
        None => None,
    }
}

/// A shape that may be missing.
pub open spec fn shape_view(shape: Option<Vec<usize>>) -> Option<Seq<usize>> {
    match shape {
        Some(shape) => Some(shape@),
        None => None,
    }
}

impl Options {
    pub open spec fn view(&self) -> Request {
        Request {
            component: Some(self.component),
            input: place(self.input),
            output: place(self.output),
            list: self.list,
            silence_raw: place(self.silence_raw),
            silence_shape: shape_view(self.silence_shape),
        }
    }
}

/// Finds the option that takes a value and is written `text`.
fn find_flag(text: &str) -> (flag: Option<Flag>)
    ensures
        flag == flag_named(text@),
{
    if same_text(text, "--component") {
        Some(Flag::Component)
    } else if same_text(text, "--input") {
        Some(Flag::Input)
    } else if same_text(text, "--output") {
        Some(Flag::Output)
    } else if same_text(text, "--silence-raw") {
        Some(Flag::SilenceRaw)
    } else if same_text(text, "--silence-shape") {
        Some(Flag::SilenceShape)
    } else {
        None
    }
}

/// Reads a component name.
fn read_component(text: &str) -> (r: Result<Component, OptionsError>)
    ensures
        match component_named(text@) {
            Some(component) => r is Ok && r->Ok_0 == component,
            None => r is Err && r->Err_0@ == OptionsFault::UnsupportedComponent(text@),
        },
{
    match Component::parse(text) {
        Some(component) => {
            proof {
                let chosen = choose|c: Component| #[trigger] c.label() == text@;
                assert(component.label() == text@);
                crate::convert::names::lemma_labels_distinct(component, chosen);
            }
            Ok(component)
        },
        None => Err(OptionsError::UnsupportedComponent(owned(text))),
    }
}

/// Reads a comma-separated shape.
fn read_shape(text: &str) -> (r: Result<Vec<usize>, OptionsError>)
    ensures
        match shape_named(text@) {
            Ok(shape) => r is Ok && r->Ok_0@ == shape,
            Err(fault) => r is Err && r->Err_0@ == fault,
        },
{
    let dims = split(text, ',');
    let ghost all = pieces(text@, ',');
    let mut shape: Vec<usize> = Vec::new();
    let mut zero: bool = false;
    let mut i: usize = 0;
    while i < dims.len()
        invariant
            i <= dims@.len(),
            views(dims@) == all,
            zero <==> shape@.contains(0),
            shape_from(all, 0, Seq::empty()) == shape_from(all, i as int, shape@),
            all == pieces(text@, ','),
        decreases dims@.len() - i,
    {
        assert(all[i as int] == dims@[i as int]@);
        let digits = trim(dims[i].as_str());
        let limit: u64 = usize::MAX as u64;
        match parse_unsigned(digits.as_slice(), limit) {
            Some(n) => {
                let ghost before = shape@;
                let dim: usize = n as usize;
                shape.push(dim);
                proof {
                    if dim == 0 {
                        assert(shape@[before.len() as int] == 0);
                    }
                    if before.contains(0) {
                        let k = choose|k: int| 0 <= k < before.len() && before[k] == 0;
                        assert(shape@[k] == 0);
                    }
                    assert(shape@.contains(0) ==> before.contains(0) || dim == 0);
                }
                if dim == 0 {
                    zero = true;
                }
            },
            None => {
                return Err(OptionsError::InvalidDimension(dims[i].clone()));
            },
        }
        i += 1;
    }
    if zero {
        Err(OptionsError::EmptyDimension)
    } else {
        Ok(shape)
    }
}

/// The argument at `at`, as text.
fn value_text(args: &Vec<Option<String>>, at: usize, flag: Flag) -> (r: Result<
    String,
    OptionsError,
>)
    requires
        at < args@.len(),
    ensures
        match argument_text(args@[at as int]) {
            Some(text) => r is Ok && r->Ok_0@ == text,
            None => r is Err && r->Err_0@ == OptionsFault::ValueNotUtf8(flag),
        },
{
    match &args[at] {
        Some(text) => Ok(text.clone()),
        None => Err(OptionsError::ValueNotUtf8(flag)),
    }
}

/// Reads the command line of the converter.
#[verifier::rlimit(40)]
pub fn parse_args(args: &Vec<Option<String>>) -> (r: Result<Options, OptionsError>)
    ensures
        match request(argument_texts(args@)) {
            Ok(asked) => r is Ok && r->Ok_0@ == asked,
            Err(fault) => r is Err && r->Err_0@ == fault,
        },
{
    let ghost texts = argument_texts(args@);
    let mut component: Option<Component> = None;
    let mut input: Option<usize> = None;
    let mut output: Option<usize> = None;
    let mut list: bool = false;
    let mut silence_raw: Option<usize> = None;
    let mut silence_shape: Option<Vec<usize>> = None;
    let ghost mut so_far = Request::nothing();
    let mut at: usize = 1;
    while at < args.len()
        invariant
            texts == argument_texts(args@),
            texts.len() == args@.len(),
            1 <= at,
            so_far == (Request {
                component,
                input: place(input),
                output: place(output),
                list,
                silence_raw: place(silence_raw),
                silence_shape: shape_view(silence_shape),
            }),
            request_from(texts, 1, Request::nothing()) == request_from(texts, at as int, so_far),
        decreases args@.len() - at,
    {
        assert(texts[at as int] == argument_text(args@[at as int]));
        let arg = match &args[at] {
            Some(text) => text.clone(),
            None => {
                return Err(OptionsError::ArgumentNotUtf8);
            },
        };
        if same_text(arg.as_str(), "-h") || same_text(arg.as_str(), "--help") {
            return Err(OptionsError::Help);
        }
        if same_text(arg.as_str(), "--list") {
            list = true;
            proof {
                so_far = Request { list: true, ..so_far };
            }
            at += 1;
            continue;
        }
        let flag = match find_flag(arg.as_str()) {
            Some(flag) => flag,
            None => {
                return Err(OptionsError::UnknownArgument(arg));
            },
        };
        if at + 1 >= args.len() {
            return Err(OptionsError::MissingValue(flag));
        }
        let next: usize = at + 1;
        assert(texts[next as int] == argument_text(args@[next as int]));
        match flag {
            Flag::Input => {
                input = Some(next);
            },
            Flag::Output => {
                output = Some(next);
            },
            Flag::SilenceRaw => {
                silence_raw = Some(next);
            },
            Flag::Component => {
                let text = value_text(args, next, flag)?;
                let parsed = read_component(text.as_str())?;
                component = Some(parsed);
            },
            Flag::SilenceShape => {
                let text = value_text(args, next, flag)?;
                let parsed = read_shape(text.as_str())?;
                silence_shape = Some(parsed);
            },
        }
        proof {
            so_far = so_far.with(flag, next as int, texts[next as int])->Ok_0;
        }
        if next == args.len() - 1 {
            at = args.len();
        } else {
            at = next + 1;
        }
    }
    let component = match component {
        Some(component) => component,
        None => {
            return Err(OptionsError::MissingComponent);
        },
    };
    if component != Component::Silence && (silence_raw.is_some() || silence_shape.is_some()) {
        return Err(OptionsError::SilenceOptionElsewhere);
    }
    Ok(Options { component, input, output, list, silence_raw, silence_shape })
}

/// What a conversion of a safetensors checkpoint is to do. The paths are given
/// by their places among the arguments.
#[derive(Clone, Copy, Debug, PartialEq, Eq, Structural)]
pub enum Action {
    /// List the tensors of the input.
    List(usize),
    /// Convert the input into the output.
    Convert(usize, usize),
}

/// Where the silence latent comes from.
#[derive(Debug)]
pub enum SilenceSource {
    /// A file of raw numbers, with the shape that they have.
    Raw(usize, Vec<usize>),
    /// A `torch.save` archive.
    Archive(usize),
}

/// Decides what to do with a safetensors checkpoint. An input is always needed,
/// and an output unless the tensors are only listed.
pub fn checkpoint_action(options: &Options) -> (r: Result<Action, OptionsError>)
    ensures
        match (options.input, options.list, options.output) {
            (None, _, _) => r is Err && r->Err_0@ == OptionsFault::MissingInput,
            (Some(input), true, _) => r == Ok::<Action, OptionsError>(Action::List(input)),
            (Some(_), false, None) => r is Err && r->Err_0@ == OptionsFault::MissingOutput,
            (Some(input), false, Some(output)) => r == Ok::<Action, OptionsError>(
                Action::Convert(input, output),
            ),
        },
{
    let input: usize = match options.input {
        Some(input) => input,
        None => {
            return Err(OptionsError::MissingInput);
        },
    };
    if options.list {
        return Ok(Action::List(input));
    }
    match options.output {
        Some(output) => Ok(Action::Convert(input, output)),
        None => Err(OptionsError::MissingOutput),
    }
}

/// Decides where the silence latent comes from: the raw file where one is given,
/// which needs a shape, and the input otherwise.
pub fn silence_source(options: &Options) -> (r: Result<SilenceSource, OptionsError>)
    ensures
        match (options.silence_raw, options.silence_shape, options.input) {
            (Some(raw), Some(shape), _) => r matches Ok(SilenceSource::Raw(at, dims)) && at == raw
                && dims@ == shape@,
            (Some(_), None, _) => r is Err && r->Err_0@ == OptionsFault::MissingSilenceShape,
            (None, _, Some(input)) => r == Ok::<SilenceSource, OptionsError>(
                SilenceSource::Archive(input),
            ),
            (None, _, None) => r is Err && r->Err_0@ == OptionsFault::MissingSilenceInput,
        },
{
    match options.silence_raw {
        Some(raw) => match &options.silence_shape {
            Some(shape) => Ok(
                SilenceSource::Raw(raw, vstd::slice::slice_to_vec(shape.as_slice())),
            ),
            None => Err(OptionsError::MissingSilenceShape),
        },
        None => match options.input {
            Some(input) => Ok(SilenceSource::Archive(input)),
            None => Err(OptionsError::MissingSilenceInput),
        },
    }
}

/// Decides where the silence latent goes: nowhere where it is only listed.
pub fn silence_target(options: &Options) -> (r: Result<Option<usize>, OptionsError>)
    ensures
        options.list ==> r == Ok::<Option<usize>, OptionsError>(None),
        !options.list && options.output is Some ==> r == Ok::<Option<usize>, OptionsError>(
            options.output,
        ),
        !options.list && options.output is None ==> r is Err && r->Err_0@
            == OptionsFault::MissingOutput,
{
    if options.list {
        return Ok(None);
    }
    match options.output {
        Some(output) => Ok(Some(output)),
        None => Err(OptionsError::MissingOutput),
    }
}

/// Of an option that is given twice, the later value counts.
pub proof fn lemma_later_value_counts(
    so_far: Request,
    flag: Flag,
    earlier: int,
    value: Option<Seq<char>>,
    later: int,
    other: Option<Seq<char>>,
)
    requires
        so_far.with(flag, earlier, value) is Ok,
    ensures
        so_far.with(flag, earlier, value)->Ok_0.with(flag, later, other) == so_far.with(
            flag,
            later,
            other,
        ),
{
}

/// An option and its value at the end of a command line that was accepted without
/// them change that option and nothing else.
pub proof fn lemma_last_option_wins(
    args: Seq<Option<Seq<char>>>,
    text: Seq<char>,
    flag: Flag,
    value: Option<Seq<char>>,
    at: int,
    so_far: Request,
)
    requires
        0 <= at <= args.len(),
        flag_named(text) == Some(flag),
        request_from(args, at, so_far) is Ok,
    ensures
        request_from(args.push(Some(text)).push(value), at, so_far) == request_from(
            args,
            at,
            so_far,
        )->Ok_0.with(flag, args.len() as int + 1, value),
    decreases args.len() - at,
{
    let longer = args.push(Some(text)).push(value);
    if at == args.len() {
        lemma_flags_are_no_switches(text);
        reveal_with_fuel(request_from, 2);
    } else {
        let word = args[at]->Some_0;
        assert(longer[at] == args[at]);
        if word == "--list"@ {
            lemma_last_option_wins(
                args,
                text,
                flag,
                value,
                at + 1,
                Request { list: true, ..so_far },
            );
        } else {
            let named = flag_named(word)->Some_0;
            assert(longer[at + 1] == args[at + 1]);
            let more = so_far.with(named, at + 1, args[at + 1])->Ok_0;
            lemma_last_option_wins(args, text, flag, value, at + 2, more);
        }
    }
}

/// An option that takes a value is none of the switches.
proof fn lemma_flags_are_no_switches(text: Seq<char>)
    requires
        flag_named(text) is Some,
    ensures
        text != "-h"@,
        text != "--help"@,
        text != "--list"@,
{
    reveal_strlit("-h");
    reveal_strlit("--help");
    reveal_strlit("--list");
    reveal_strlit("--component");
    reveal_strlit("--input");
    reveal_strlit("--output");
    reveal_strlit("--silence-raw");
    reveal_strlit("--silence-shape");
    assert("-h"@.len() == 2);
    assert("--help"@.len() == 6);
    assert("--list"@.len() == 6);
    assert("--component"@.len() == 11);
    assert("--input"@.len() == 7);
    assert("--output"@.len() == 8);
    assert("--silence-raw"@.len() == 13);
    assert("--silence-shape"@.len() == 15);
}

} // verus!
