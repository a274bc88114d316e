//! What the arguments of the converter ask for.

use vstd::prelude::*;

use crate::convert::names::{lemma_labels_distinct, Component};
use crate::convert::options::{
    argument_texts, component_named, flag_named, lemma_last_option_wins, request, request_from, shape_from,
    shape_named, Flag, Options, OptionsFault, Request,
};
use crate::laws::text::{
    lemma_digits_are_core, lemma_one_piece, lemma_pieces_join, lemma_reads_back, lemma_trimmed,
};
use crate::text::{
    decimal, is_digit, lemma_decimal_number, pieces, trimmed, unsigned_number, white_space,
};

verus! {

/// The names of the components.
pub proof fn lemma_component_names(text: Seq<char>)
    ensures
        component_named("text-encoder"@) == Some(Component::TextEncoder),
        component_named("lm"@) == Some(Component::Lm),
        component_named("dit"@) == Some(Component::Dit),
        component_named("condition"@) == Some(Component::Condition),
        component_named("vae"@) == Some(Component::Vae),
        component_named("silence"@) == Some(Component::Silence),
        component_named(text) is Some ==> text == "text-encoder"@ || text == "lm"@ || text == "dit"@
            || text == "condition"@ || text == "vae"@ || text == "silence"@,
{
    lemma_named(Component::TextEncoder);
    lemma_named(Component::Lm);
    lemma_named(Component::Dit);
    lemma_named(Component::Condition);
    lemma_named(Component::Vae);
    lemma_named(Component::Silence);
}

proof fn lemma_named(component: Component)
    ensures
        component_named(component.label()) == Some(component),
{
    let text = component.label();
    assert(exists|c: Component| #[trigger] c.label() == text);
    let c = choose|c: Component| #[trigger] c.label() == text;
    lemma_labels_distinct(c, component);
}

proof fn lemma_flags()
    ensures
        flag_named("--component"@) == Some(Flag::Component),
        flag_named("--input"@) == Some(Flag::Input),
        flag_named("--output"@) == Some(Flag::Output),
        flag_named("--silence-raw"@) == Some(Flag::SilenceRaw),
        flag_named("--silence-shape"@) == Some(Flag::SilenceShape),
        flag_named("--list"@) is None,
        flag_named("--help"@) is None,
        flag_named("-h"@) is None,
        "--list"@ != "--help"@,
        "--list"@ != "-h"@,
{
    reveal_strlit("--component");
    reveal_strlit("--input");
    reveal_strlit("--output");
    reveal_strlit("--silence-raw");
    reveal_strlit("--silence-shape");
    reveal_strlit("--list");
    reveal_strlit("--help");
    reveal_strlit("-h");
    assert("--component"@[2] == 'c');
    assert("--input"@[2] == 'i');
    assert("--output"@[2] == 'o');
    assert("--silence-raw"@[2] == 's');
    assert("--silence-shape"@[2] == 's');
    assert("--silence-raw"@[10] == 'r');
    assert("--silence-shape"@[10] == 's');
    assert("--list"@[2] == 'l');
    assert("--help"@[2] == 'h');
    assert("-h"@.len() == 2);
}

/// Each option sets what it is for and leaves the rest as it was: `--input`, `--output` and
/// `--silence-raw` the place of their value, whatever that is.
pub proof fn lemma_paths_are_set(
    args: Seq<Option<Seq<char>>>,
    value: Option<Seq<char>>,
    asked: Request,
)
    requires
        args.len() >= 1,
        request_from(args, 1, Request::nothing()) == Ok::<Request, OptionsFault>(asked),
    ensures
        request_from(args.push(Some("--input"@)).push(value), 1, Request::nothing()) == Ok::<
            Request,
            OptionsFault,
        >(Request { input: Some(args.len() as int + 1), ..asked }),
        request_from(args.push(Some("--output"@)).push(value), 1, Request::nothing()) == Ok::<
            Request,
            OptionsFault,
        >(Request { output: Some(args.len() as int + 1), ..asked }),
        request_from(args.push(Some("--silence-raw"@)).push(value), 1, Request::nothing()) == Ok::<
            Request,
            OptionsFault,
        >(Request { silence_raw: Some(args.len() as int + 1), ..asked }),
{
    lemma_flags();
    lemma_last_option_wins(args, "--input"@, Flag::Input, value, 1, Request::nothing());
    lemma_last_option_wins(args, "--output"@, Flag::Output, value, 1, Request::nothing());
    lemma_last_option_wins(args, "--silence-raw"@, Flag::SilenceRaw, value, 1, Request::nothing());
}

/// The component is the one that is named, and no other name is taken; the shape is the one
/// that is spelled.
pub proof fn lemma_values_are_set(
    args: Seq<Option<Seq<char>>>,
    text: Seq<char>,
    asked: Request,
)
    requires
        args.len() >= 1,
        request_from(args, 1, Request::nothing()) == Ok::<Request, OptionsFault>(asked),
    ensures
        component_named(text) matches Some(component) ==> request_from(
            args.push(Some("--component"@)).push(Some(text)),
            1,
            Request::nothing(),
        ) == Ok::<Request, OptionsFault>(Request { component: Some(component), ..asked }),
        component_named(text) is None ==> request_from(
            args.push(Some("--component"@)).push(Some(text)),
            1,
            Request::nothing(),
        ) == Err::<Request, OptionsFault>(OptionsFault::UnsupportedComponent(text)),
        shape_named(text) matches Ok(shape) ==> request_from(
            args.push(Some("--silence-shape"@)).push(Some(text)),
            1,
            Request::nothing(),
        ) == Ok::<Request, OptionsFault>(Request { silence_shape: Some(shape), ..asked }),
        shape_named(text) is Err ==> request_from(
            args.push(Some("--silence-shape"@)).push(Some(text)),
            1,
            Request::nothing(),
        ) is Err,
{
    lemma_flags();
    lemma_last_option_wins(
        args,
        "--component"@,
        Flag::Component,
        Some(text),
        1,
        Request::nothing(),
    );
    lemma_last_option_wins(
        args,
        "--silence-shape"@,
        Flag::SilenceShape,
        Some(text),
        1,
        Request::nothing(),
    );
}

/// One more argument after those that were read.
proof fn lemma_one_more(
    args: Seq<Option<Seq<char>>>,
    text: Seq<char>,
    at: int,
    so_far: Request,
)
    requires
        0 <= at <= args.len(),
        request_from(args, at, so_far) is Ok,
    ensures
        request_from(args.push(Some(text)), at, so_far) == request_from(
            args.push(Some(text)),
            args.len() as int,
            request_from(args, at, so_far)->Ok_0,
        ),
    decreases args.len() - at,
{
    let all = args.push(Some(text));
    if at < args.len() {
        assert(all[at] == args[at]);
        let given = args[at]->0;
        if given == "--list"@ {
            lemma_flags();
            lemma_one_more(args, text, at + 1, Request { list: true, ..so_far });
        } else {
            let flag = flag_named(given)->0;
            assert(at + 1 < args.len());
            assert(all[at + 1] == args[at + 1]);
            let more = so_far.with(flag, at + 1, args[at + 1])->Ok_0;
            lemma_one_more(args, text, at + 2, more);
        }
    }
}

/// The switch for a listing sets that and nothing else, a call for help gives help, an option
/// at the very end lacks its value, and any other word is refused.
pub proof fn lemma_words_alone(
    args: Seq<Option<Seq<char>>>,
    word: Seq<char>,
    asked: Request,
)
    requires
        args.len() >= 1,
        request_from(args, 1, Request::nothing()) == Ok::<Request, OptionsFault>(asked),
    ensures
        request_from(args.push(Some("--list"@)), 1, Request::nothing()) == Ok::<
            Request,
            OptionsFault,
        >(Request { list: true, ..asked }),
        request_from(args.push(Some("--help"@)), 1, Request::nothing()) == Err::<
            Request,
            OptionsFault,
        >(OptionsFault::Help),
        request_from(args.push(Some("-h"@)), 1, Request::nothing()) == Err::<
            Request,
            OptionsFault,
        >(OptionsFault::Help),
        request_from(args.push(Some("--input"@)), 1, Request::nothing()) == Err::<
            Request,
            OptionsFault,
        >(OptionsFault::MissingValue(Flag::Input)),
        request_from(args.push(Some("--component"@)), 1, Request::nothing()) == Err::<
            Request,
            OptionsFault,
        >(OptionsFault::MissingValue(Flag::Component)),
        request_from(args.push(Some("--output"@)), 1, Request::nothing()) == Err::<
            Request,
            OptionsFault,
        >(OptionsFault::MissingValue(Flag::Output)),
        !seq![
            "-h"@,
            "--help"@,
            "--list"@,
            "--component"@,
            "--input"@,
            "--output"@,
            "--silence-raw"@,
            "--silence-shape"@,
        ].contains(word) ==> request_from(args.push(Some(word)), 1, Request::nothing()) == Err::<
            Request,
            OptionsFault,
        >(OptionsFault::UnknownArgument(word)),
{
    lemma_flags();
    let n = args.len() as int;
    lemma_one_more(args, "--list"@, 1, Request::nothing());
    assert(args.push(Some("--list"@))[n] == Some("--list"@));
    lemma_end(args.push(Some("--list"@)), Request { list: true, ..asked });
    lemma_one_more(args, "--help"@, 1, Request::nothing());
    assert(args.push(Some("--help"@))[n] == Some("--help"@));
    lemma_one_more(args, "-h"@, 1, Request::nothing());
    assert(args.push(Some("-h"@))[n] == Some("-h"@));
    lemma_end_of(args, "--input"@, Flag::Input, asked);
    lemma_end_of(args, "--component"@, Flag::Component, asked);
    lemma_end_of(args, "--output"@, Flag::Output, asked);
    let known = seq![
        "-h"@,
        "--help"@,
        "--list"@,
        "--component"@,
        "--input"@,
        "--output"@,
        "--silence-raw"@,
        "--silence-shape"@,
    ];
    if !known.contains(word) {
        assert(known[0] != word && known[1] != word && known[2] != word && known[3] != word
            && known[4] != word && known[5] != word && known[6] != word && known[7] != word);
        lemma_one_more(args, word, 1, Request::nothing());
        assert(args.push(Some(word))[n] == Some(word));
    }
}

proof fn lemma_end(args: Seq<Option<Seq<char>>>, asked: Request)
    ensures
        request_from(args, args.len() as int, asked) == Ok::<Request, OptionsFault>(asked),
{
}

proof fn lemma_end_of(args: Seq<Option<Seq<char>>>, text: Seq<char>, flag: Flag, asked: Request)
    requires
        args.len() >= 1,
        request_from(args, 1, Request::nothing()) == Ok::<Request, OptionsFault>(asked),
        flag_named(text) == Some(flag),
    ensures
        request_from(args.push(Some(text)), 1, Request::nothing()) == Err::<Request, OptionsFault>(
            OptionsFault::MissingValue(flag),
        ),
{
    lemma_one_more(args, text, 1, Request::nothing());
    let all = args.push(Some(text));
    assert(all[args.len() as int] == Some(text));
    lemma_flags();
}

/// Nothing is asked for where there are no arguments, and a component must be: any other than
/// that of silence goes without the options of silence.
pub proof fn lemma_whole_request(args: Seq<Option<Seq<char>>>, asked: Request)
    requires
        request_from(args, 1, Request::nothing()) == Ok::<Request, OptionsFault>(asked),
    ensures
        args.len() <= 1 ==> asked.component is None && asked.input is None && asked.output is None
            && !asked.list && asked.silence_raw is None && asked.silence_shape is None,
        asked.component is None ==> request(args) == Err::<Request, OptionsFault>(
            OptionsFault::MissingComponent,
        ),
        asked.component == Some(Component::Silence) ==> request(args) == Ok::<Request, OptionsFault>(
            asked,
        ),
        asked.component is Some && asked.silence_raw is None && asked.silence_shape is None
            ==> request(args) == Ok::<Request, OptionsFault>(asked),
        asked.component matches Some(component) && component != Component::Silence && (
        asked.silence_raw is Some || asked.silence_shape is Some) ==> request(args) == Err::<
            Request,
            OptionsFault,
        >(OptionsFault::SilenceOptionElsewhere),
{
}

proof fn lemma_shape_join(a: Seq<Seq<char>>, b: Seq<Seq<char>>, at: int, done: Seq<usize>)
    requires
        0 <= at <= a.len(),
        shape_from(a, at, done) is Ok,
    ensures
        shape_from(a + b, at, done) == shape_from(b, 0, shape_from(a, at, done)->Ok_0),
    decreases a.len() - at,
{
    let all = a + b;
    if at < a.len() {
        assert(all[at] == a[at]);
        let n = unsigned_number(trimmed(a[at]), usize::MAX as int)->0;
        lemma_shape_join(a, b, at + 1, done.push(n as usize));
    } else {
        lemma_shape_shift(a, b, 0, done);
    }
}

proof fn lemma_shape_shift(a: Seq<Seq<char>>, b: Seq<Seq<char>>, at: int, done: Seq<usize>)
    requires
        0 <= at <= b.len(),
    ensures
        shape_from(a + b, a.len() + at, done) == shape_from(b, at, done),
    decreases b.len() - at,
{
    let all = a + b;
    if at < b.len() {
        assert(all[a.len() + at] == b[at]);
        match unsigned_number(trimmed(b[at]), usize::MAX as int) {
            None => {},
            Some(n) => {
                lemma_shape_shift(a, b, at + 1, done.push(n as usize));
            },
        }
    }
}

proof fn lemma_shape_front(dims: Seq<Seq<char>>, at: int, front: Seq<usize>, done: Seq<usize>)
    requires
        0 <= at <= dims.len(),
    ensures
        match shape_from(dims, at, done) {
            Ok(shape) => shape_from(dims, at, front + done) == Ok::<Seq<usize>, OptionsFault>(
                front + shape,
            ),
            Err(fault) => shape_from(dims, at, front + done) == Err::<Seq<usize>, OptionsFault>(
                fault,
            ),
        },
    decreases dims.len() - at,
{
    if at < dims.len() {
        match unsigned_number(trimmed(dims[at]), usize::MAX as int) {
            None => {},
            Some(n) => {
                assert((front + done).push(n as usize) =~= front + done.push(n as usize));
                lemma_shape_front(dims, at + 1, front, done.push(n as usize));
            },
        }
    }
}

/// A shape is spelled dimension by dimension, with commas between them: what is before a
/// comma gives the first dimensions, and what is after it the others.
pub proof fn lemma_shapes_join(a: Seq<char>, b: Seq<char>)
    requires
        shape_named(a) is Ok,
        shape_named(b) is Ok,
    ensures
        shape_named(a + seq![','] + b) == Ok::<Seq<usize>, OptionsFault>(
            shape_named(a)->Ok_0 + shape_named(b)->Ok_0,
        ),
{
    let x = shape_named(a)->Ok_0;
    let y = shape_named(b)->Ok_0;
    lemma_pieces_join(a, b, ',');
    let none = Seq::<usize>::empty();
    lemma_shape_join(pieces(a, ','), pieces(b, ','), 0, none);
    lemma_shape_front(pieces(b, ','), 0, x, none);
    assert(x + none =~= x);
    assert(!(x + y).contains(0)) by {
        if (x + y).contains(0) {
            let i = choose|i: int| 0 <= i < (x + y).len() && (x + y)[i] == 0;
            if i < x.len() {
                assert(x[i] == 0);
            } else {
                assert(y[i - x.len()] == 0);
            }
        }
    }
}

/// One dimension is a whole number above nought, with or without white space around it.
pub proof fn lemma_one_dimension(before: Seq<char>, n: nat, after: Seq<char>)
    requires
        forall|i: int| 0 <= i < before.len() ==> white_space(#[trigger] before[i]),
        forall|i: int| 0 <= i < after.len() ==> white_space(#[trigger] after[i]),
    ensures
        1 <= n <= usize::MAX ==> shape_named(before + decimal(n) + after) == Ok::<
            Seq<usize>,
            OptionsFault,
        >(seq![n as usize]),
        n == 0 ==> shape_named(before + decimal(n) + after) == Err::<Seq<usize>, OptionsFault>(
            OptionsFault::EmptyDimension,
        ),
        n > usize::MAX ==> shape_named(before + decimal(n) + after) == Err::<
            Seq<usize>,
            OptionsFault,
        >(OptionsFault::InvalidDimension(before + decimal(n) + after)),
{
    let text = before + decimal(n) + after;
    lemma_decimal_number(n);
    lemma_digits_are_core(decimal(n));
    lemma_trimmed(before, decimal(n), after);
    lemma_reads_back(n, usize::MAX as int);
    assert(!text.contains(',')) by {
        if text.contains(',') {
            let i = choose|i: int| 0 <= i < text.len() && text[i] == ',';
            if i < before.len() {
                assert(white_space(before[i]));
            } else if i < before.len() + decimal(n).len() {
                assert(is_digit(decimal(n)[i - before.len()]));
            } else {
                assert(white_space(after[i - before.len() - decimal(n).len()]));
            }
        }
    }
    lemma_one_piece(text, ',');
    let dims = seq![text];
    assert(dims[0] == text);
    let none = Seq::<usize>::empty();
    if n <= usize::MAX {
        assert(shape_from(dims, 1, none.push(n as usize)) == Ok::<Seq<usize>, OptionsFault>(
            none.push(n as usize),
        ));
        assert(none.push(n as usize) =~= seq![n as usize]);
        assert(seq![n as usize].contains(0) <==> n == 0) by {
            assert(seq![n as usize][0] == n as usize);
        }
    }
}

/// Options say what was asked for, each in its own place.
pub proof fn lemma_options_view(options: Options)
    ensures
        options@.component == Some(options.component),
        options@.list == options.list,
        options.input matches Some(at) ==> options@.input == Some(at as int),
        options.input is None ==> options@.input is None,
        options.output matches Some(at) ==> options@.output == Some(at as int),
        options.output is None ==> options@.output is None,
        options.silence_raw matches Some(at) ==> options@.silence_raw == Some(at as int),
        options.silence_raw is None ==> options@.silence_raw is None,
        options.silence_shape matches Some(shape) ==> options@.silence_shape == Some(shape@),
        options.silence_shape is None ==> options@.silence_shape is None,
{
}

/// Arguments are read as the texts that they are, in their order.
pub proof fn lemma_arguments(args: Seq<Option<String>>, i: int)
    requires
        0 <= i < args.len(),
    ensures
        argument_texts(args).len() == args.len(),
        args[i] matches Some(text) ==> argument_texts(args)[i] == Some(text@),
        args[i] is None ==> argument_texts(args)[i] is None,
{
}

/// An argument that is no text is refused, and so is the name of a component or a shape that is
/// none.
pub proof fn lemma_no_texts(args: Seq<Option<Seq<char>>>, asked: Request)
    requires
        args.len() >= 1,
        request_from(args, 1, Request::nothing()) == Ok::<Request, OptionsFault>(asked),
    ensures
        request_from(args.push(Some("--component"@)).push(None), 1, Request::nothing()) == Err::<
            Request,
            OptionsFault,
        >(OptionsFault::ValueNotUtf8(Flag::Component)),
        request_from(args.push(Some("--silence-shape"@)).push(None), 1, Request::nothing()) == Err::<
            Request,
            OptionsFault,
        >(OptionsFault::ValueNotUtf8(Flag::SilenceShape)),
        request_from(args.push(Some("--silence-raw"@)), 1, Request::nothing()) == Err::<
            Request,
            OptionsFault,
        >(OptionsFault::MissingValue(Flag::SilenceRaw)),
        request_from(args.push(Some("--silence-shape"@)), 1, Request::nothing()) == Err::<
            Request,
            OptionsFault,
        >(OptionsFault::MissingValue(Flag::SilenceShape)),
{
    lemma_flags();
    let start = Request::nothing();
    lemma_last_option_wins(args, "--component"@, Flag::Component, None, 1, start);
    lemma_last_option_wins(args, "--silence-shape"@, Flag::SilenceShape, None, 1, start);
    lemma_end_of(args, "--silence-raw"@, Flag::SilenceRaw, asked);
    lemma_end_of(args, "--silence-shape"@, Flag::SilenceShape, asked);
}

} // verus!
