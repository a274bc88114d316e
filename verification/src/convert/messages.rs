//! What the converter tells its user: the help text, the report of a
//! conversion, and the reasons for refusing one.

use vstd::prelude::*;

use crate::convert::archive::{ZipError, ZipFault};
use crate::convert::checkpoint::ConvertedTensor;
use crate::convert::decode::{DecodeError, DecodeFault};
use crate::convert::names::Component;
use crate::convert::options::{OptionsError, OptionsFault};
use crate::convert::pickle::{Fault, PickleError};
use crate::text::{decimal, decimal_text, owned, views};

verus! {

/// The help text of the converter.
pub const HELP: &'static str = "\
acestep_convert

Usage:
  acestep_convert --component <text-encoder|lm|dit|condition|vae|silence> \\
      --input <path> --output <path.bpk>
  acestep_convert --component <...> --input <path> --list
  acestep_convert --component silence --silence-raw <path> \\
      --silence-shape <1,S,64> --output silence_latent.bpk

Options:
  --component <name>      Which model component the checkpoint belongs to
  --input <path>          Official checkpoint (safetensors, or silence_latent.pt
                          for the silence component)
  --output <path.bpk>     Destination burnpack file
  --list                  Print input tensor names/dtypes/shapes and exit
  --silence-raw <path>    Raw little-endian f32 silence latent, used instead of
                          parsing --input as a torch.save archive
  --silence-shape <dims>  Comma-separated shape for --silence-raw, e.g. 1,4096,64
  -h, --help
";

/// The help text of the converter.
pub fn help_text() -> (text: &'static str)
    ensures
        text@ == HELP@,
{
    HELP
}

/// Numbers, separated by a comma and a space.
pub open spec fn listed(shape: Seq<usize>) -> Seq<char>
    decreases shape.len(),
{
    if shape.len() == 0 {
        Seq::empty()
    } else if shape.len() == 1 {
        decimal(shape[0] as nat)
    } else {
        listed(shape.drop_last()) + ", "@ + decimal(shape.last() as nat)
    }
}

/// A shape in square brackets.
pub open spec fn bracketed(shape: Seq<usize>) -> Seq<char> {
    "["@ + listed(shape) + "]"@
}

/// A shape in square brackets.
pub fn shape_text(shape: &[usize]) -> (text: String)
    ensures
        text@ == bracketed(shape@),
{
    let mut text = owned("[");
    let mut i: usize = 0;
    while i < shape.len()
        invariant
            i <= shape@.len(),
            text@ == "["@ + listed(shape@.take(i as int)),
        decreases shape@.len() - i,
    {
        let ghost front = shape@.take(i + 1);
        proof {
            assert(front.drop_last() =~= shape@.take(i as int));
            assert(front.last() == shape@[i as int]);
        }
        let number = decimal_text(shape[i] as u64);
        if i > 0 {
            text.append(", ");
        } else {
            assert(shape@.take(0) =~= Seq::empty());
            assert(text@ =~= "["@);
        }
        text.append(number.as_str());
        assert(text@ =~= "["@ + listed(front));
        i += 1;
    }
    assert(shape@.take(i as int) =~= shape@);
    text.append("]");
    text
}

/// One line of the tensor list: the name, the element type and the shape.
pub fn list_line(name: &str, dtype: &str, shape: &[usize]) -> (line: String)
    ensures
        line@ == name@ + "\t"@ + dtype@ + "\t"@ + bracketed(shape@),
{
    let mut line = owned(name);
    line.append("\t");
    line.append(dtype);
    line.append("\t");
    line.append(shape_text(shape).as_str());
    line
}

/// How many elements the tensors have together.
pub open spec fn element_total(tensors: Seq<ConvertedTensor>) -> int
    decreases tensors.len(),
{
    if tensors.len() == 0 {
        0
    } else {
        element_total(tensors.drop_last()) + tensors.last().data@.len()
    }
}

/// The first `n` names, each on a line of its own.
pub open spec fn name_lines(names: Seq<Seq<char>>, n: int) -> Seq<char>
    decreases n,
{
    if n <= 0 {
        Seq::empty()
    } else {
        name_lines(names, n - 1) + "    "@ + names[n - 1] + "\n"@
    }
}

/// How many skipped names a report lists at most.
pub const LISTED_NAMES: usize = 8;

/// The part of the report on the tensors that were left out.
pub open spec fn skipped_report(skipped: Seq<Seq<char>>) -> Seq<char> {
    if skipped.len() == 0 {
        Seq::empty()
    } else {
        let shown = if skipped.len() < LISTED_NAMES {
            skipped.len() as int
        } else {
            LISTED_NAMES as int
        };
        "  skipped "@ + decimal(skipped.len()) + " input tensors:\n"@ + name_lines(skipped, shown)
            + if skipped.len() > LISTED_NAMES {
            "    ... and "@ + decimal((skipped.len() - LISTED_NAMES) as nat) + " more\n"@
        } else {
            Seq::empty()
        }
    }
}

/// Adding a tensor adds its elements.
proof fn lemma_element_total(tensors: Seq<ConvertedTensor>, n: int)
    requires
        0 <= n <= tensors.len(),
    ensures
        0 <= element_total(tensors.take(n)) <= element_total(tensors),
    decreases tensors.len(),
{
    if n == tensors.len() {
        assert(tensors.take(n) =~= tensors);
        if n > 0 {
            lemma_element_total(tensors.drop_last(), n - 1);
            assert(tensors.drop_last().take(n - 1) =~= tensors.drop_last());
        }
    } else {
        lemma_element_total(tensors.drop_last(), n);
        assert(tensors.drop_last().take(n) =~= tensors.take(n));
    }
}

/// The report of a conversion, line by line, for the output path as the system
/// displays it.
pub fn report(
    component: Component,
    tensors: &Vec<ConvertedTensor>,
    skipped: &Vec<String>,
    output: &str,
) -> (text: String)
    requires
        element_total(tensors@) <= u64::MAX,
    ensures
        text@ == component.label() + ": converted "@ + decimal(tensors@.len()) + " tensors ("@
            + decimal(element_total(tensors@) as nat) + " elements) to "@ + output@ + "\n"@
            + skipped_report(views(skipped@)),
{
    let mut elements: u64 = 0;
    let mut i: usize = 0;
    while i < tensors.len()
        invariant
            i <= tensors@.len(),
            element_total(tensors@) <= u64::MAX,
            elements == element_total(tensors@.take(i as int)),
        decreases tensors@.len() - i,
    {
        proof {
            assert(tensors@.take(i + 1).drop_last() =~= tensors@.take(i as int));
            lemma_element_total(tensors@, i + 1);
        }
        elements = elements + tensors[i].data.len() as u64;
        i += 1;
    }
    assert(tensors@.take(i as int) =~= tensors@);
    let mut text = owned(component.name());
    text.append(": converted ");
    text.append(decimal_text(tensors.len() as u64).as_str());
    text.append(" tensors (");
    text.append(decimal_text(elements).as_str());
    text.append(" elements) to ");
    text.append(output);
    text.append("\n");
    text.append(skipped_text(skipped).as_str());
    text
}

/// The part of the report on the tensors that were left out.
fn skipped_text(skipped: &Vec<String>) -> (text: String)
    ensures
        text@ == skipped_report(views(skipped@)),
{
    let ghost names = views(skipped@);
    if skipped.len() == 0 {
        return String::new();
    }
    let mut text = owned("  skipped ");
    text.append(decimal_text(skipped.len() as u64).as_str());
    text.append(" input tensors:\n");
    let shown: usize = if skipped.len() < LISTED_NAMES {
        skipped.len()
    } else {
        LISTED_NAMES
    };
    let ghost head = text@;
    assert(head =~= head + name_lines(names, 0));
    let mut i: usize = 0;
    while i < shown
        invariant
            i <= shown <= skipped@.len(),
            names == views(skipped@),
            text@ == head + name_lines(names, i as int),
        decreases shown - i,
    {
        text.append("    ");
        text.append(skipped[i].as_str());
        text.append("\n");
        i += 1;
        assert(text@ =~= head + name_lines(names, i as int));
    }
    if skipped.len() > LISTED_NAMES {
        let ghost listed = text@;
        text.append("    ... and ");
        text.append(decimal_text((skipped.len() - LISTED_NAMES) as u64).as_str());
        text.append(" more\n");
        assert(text@ =~= listed + ("    ... and "@ + decimal(
            (skipped@.len() - LISTED_NAMES) as nat,
        ) + " more\n"@));
    } else {
        assert(text@ =~= text@ + Seq::<char>::empty());
    }
    text
}

/// What was written for the silence latent.
pub fn silence_report(elements: usize, output: &str) -> (text: String)
    ensures
        text@ == "silence: wrote 1 tensor ("@ + decimal(elements as nat) + " elements) to "@
            + output@,
{
    let mut text = owned("silence: wrote 1 tensor (");
    text.append(decimal_text(elements as u64).as_str());
    text.append(" elements) to ");
    text.append(output);
    text
}

/// The reason for refusing a command line. Asking for the help text gets it.
pub open spec fn options_message(fault: OptionsFault) -> Seq<char> {
    match fault {
        OptionsFault::Help => HELP@,
        OptionsFault::ArgumentNotUtf8 => "arguments must be valid UTF-8"@,
        OptionsFault::MissingValue(flag) => "missing value after "@ + flag.text(),
        OptionsFault::ValueNotUtf8(flag) => flag.text().skip(2) + " value must be valid UTF-8"@,
        OptionsFault::UnsupportedComponent(value) => "unsupported component '"@ + value
            + "', expected one of: text-encoder, lm, dit, condition, vae, silence"@,
        OptionsFault::InvalidDimension(dim) => "silence-shape dimension '"@ + dim
            + "' is not a whole number"@,
        OptionsFault::EmptyDimension =>
            "silence-shape must be a non-empty list of positive dimensions"@,
        OptionsFault::UnknownArgument(arg) => "unknown argument '"@ + arg + "'"@,
        OptionsFault::MissingComponent => "missing required --component"@,
        OptionsFault::SilenceOptionElsewhere =>
            "--silence-raw/--silence-shape only apply to the silence component"@,
        OptionsFault::MissingInput => "missing required --input"@,
        OptionsFault::MissingOutput => "missing required --output"@,
        OptionsFault::MissingSilenceShape => "--silence-shape is required with --silence-raw"@,
        OptionsFault::MissingSilenceInput => "missing required --input (or use --silence-raw)"@,
    }
}

/// `text` in front of `middle` and `end`.
fn phrase(start: &str, middle: &str, end: &str) -> (text: String)
    ensures
        text@ == start@ + middle@ + end@,
{
    let mut text = owned(start);
    text.append(middle);
    text.append(end);
    text
}

impl OptionsError {
    /// The reason, in words.
    pub fn message(&self) -> (text: String)
        ensures
            text@ == options_message(self@),
    {
        match self {
            OptionsError::Help => owned(HELP),
            OptionsError::ArgumentNotUtf8 => owned("arguments must be valid UTF-8"),
            OptionsError::MissingValue(flag) => {
                let mut text = owned("missing value after ");
                text.append(flag.name());
                text
            },
            OptionsError::ValueNotUtf8(flag) => {
                let chars = crate::text::chars_of(flag.name());
                proof {
                    reveal_strlit("--component");
                    reveal_strlit("--input");
                    reveal_strlit("--output");
                    reveal_strlit("--silence-raw");
                    reveal_strlit("--silence-shape");
                }
                let bare = vstd::slice::slice_subrange(chars.as_slice(), 2, chars.len());
                let mut text = crate::text::string_of(bare);
                assert(text@ =~= flag.text().skip(2));
                text.append(" value must be valid UTF-8");
                text
            },
            OptionsError::UnsupportedComponent(value) => phrase(
                "unsupported component '",
                value.as_str(),
                "', expected one of: text-encoder, lm, dit, condition, vae, silence",
            ),
            OptionsError::InvalidDimension(dim) => phrase(
                "silence-shape dimension '",
                dim.as_str(),
                "' is not a whole number",
            ),
            OptionsError::EmptyDimension => owned(
                "silence-shape must be a non-empty list of positive dimensions",
            ),
            OptionsError::UnknownArgument(arg) => phrase("unknown argument '", arg.as_str(), "'"),
            OptionsError::MissingComponent => owned("missing required --component"),
            OptionsError::SilenceOptionElsewhere => owned(
                "--silence-raw/--silence-shape only apply to the silence component",
            ),
            OptionsError::MissingInput => owned("missing required --input"),
            OptionsError::MissingOutput => owned("missing required --output"),
            OptionsError::MissingSilenceShape => owned(
                "--silence-shape is required with --silence-raw",
            ),
            OptionsError::MissingSilenceInput => owned(
                "missing required --input (or use --silence-raw)",
            ),
        }
    }
}

/// The reason for refusing a zip archive.
pub open spec fn zip_message(fault: ZipFault) -> Seq<char> {
    match fault {
        ZipFault::UnexpectedEnd(at) => "unexpected end of zip data at offset "@ + decimal(
            at as nat,
        ),
        ZipFault::NoEndRecord => "zip end of central directory not found"@,
        ZipFault::Zip64 => "ZIP64 archives are not supported; use --silence-raw instead"@,
        ZipFault::CorruptDirectory(at) => "corrupt zip central directory at offset "@ + decimal(
            at as nat,
        ),
        ZipFault::DirectoryEnd => "unexpected end of zip central directory"@,
        ZipFault::Compressed(name, method) => "zip entry '"@ + name + "' is compressed (method "@
            + decimal(method as nat)
            + "); only uncompressed torch.save archives are supported — re-export the raw data and use --silence-raw instead"@,
        ZipFault::CorruptLocalHeader(name) => "corrupt zip local header for entry '"@ + name
            + "'"@,
        ZipFault::DataEnd(name) => "unexpected end of zip data for entry '"@ + name + "'"@,
    }
}

impl ZipError {
    /// The reason, in words.
    pub fn message(&self) -> (text: String)
        ensures
            text@ == zip_message(self@),
    {
        match self {
            ZipError::UnexpectedEnd(at) => {
                let mut text = owned("unexpected end of zip data at offset ");
                text.append(decimal_text(*at).as_str());
                text
            },
            ZipError::NoEndRecord => owned("zip end of central directory not found"),
            ZipError::Zip64 => owned(
                "ZIP64 archives are not supported; use --silence-raw instead",
            ),
            ZipError::CorruptDirectory(at) => {
                let mut text = owned("corrupt zip central directory at offset ");
                text.append(decimal_text(*at).as_str());
                text
            },
            ZipError::DirectoryEnd => owned("unexpected end of zip central directory"),
            ZipError::Compressed(name, method) => {
                let mut text = phrase("zip entry '", name.as_str(), "' is compressed (method ");
                text.append(decimal_text(*method as u64).as_str());
                text.append(
                    "); only uncompressed torch.save archives are supported — re-export the raw data and use --silence-raw instead",
                );
                text
            },
            ZipError::CorruptLocalHeader(name) => phrase(
                "corrupt zip local header for entry '",
                name.as_str(),
                "'",
            ),
            ZipError::DataEnd(name) => phrase(
                "unexpected end of zip data for entry '",
                name.as_str(),
                "'",
            ),
        }
    }
}

/// The digits of a byte in base sixteen.
pub open spec fn hex_digit(n: int) -> char {
    if n < 10 {
        ('0' as int + n) as char
    } else {
        ('a' as int + n - 10) as char
    }
}

/// The reason for refusing a pickle stream, without the value that it is about.
pub open spec fn pickle_message(fault: Fault) -> Seq<char> {
    match fault {
        Fault::EndOfStream => "unexpected end of pickle stream"@,
        Fault::UnterminatedLine => "unterminated pickle line"@,
        Fault::StackUnderflow => "pickle stack underflow"@,
        Fault::MarkUnderflow => "pickle mark stack underflow"@,
        Fault::MarkAboveStack => "pickle mark is above the stack"@,
        Fault::InvalidLong(line) => "invalid pickle LONG '"@ + line + "'"@,
        Fault::LongTooWide(len) => "pickle LONG with "@ + decimal(len as nat)
            + " bytes does not fit in i64"@,
        Fault::InvalidUnicode => "invalid UTF-8 in pickle BINUNICODE"@,
        Fault::InvalidShortUnicode => "invalid UTF-8 in pickle SHORT_BINUNICODE"@,
        Fault::MemoNotSet(index) => "pickle memo index "@ + decimal(index as nat) + " not set"@,
        Fault::MemoFull => "pickle memo is full"@,
        Fault::EmptyAtStop => "empty pickle stack at STOP"@,
        Fault::UnsupportedOpcode(op, at) => "unsupported pickle opcode 0x"@.push(
            hex_digit(op as int / 16),
        ).push(hex_digit(op as int % 16)) + " at byte "@ + decimal(at as nat)
            + "; use --silence-raw instead"@,
        Fault::NonGlobalCallable => "pickle REDUCE on a non-global callable is not supported"@,
        Fault::MissingStorageId =>
            "malformed _rebuild_tensor_v2 call (missing storage persistent id)"@,
        Fault::StorageIdNotTuple =>
            "malformed _rebuild_tensor_v2 call (storage id is not a tuple)"@,
        Fault::UnexpectedStorageTuple =>
            "malformed _rebuild_tensor_v2 call (unexpected storage tuple)"@,
        Fault::UnexpectedStorageClass(_) => "unexpected storage class in pickle"@,
        Fault::UnexpectedStorageKey(_) => "unexpected storage key in pickle"@,
        Fault::UnexpectedStorageOffset(_) => "unexpected storage offset in pickle"@,
        Fault::UnexpectedDimension(_) => "unexpected tensor dimension in pickle"@,
        Fault::UnexpectedSize(_) => "unexpected tensor size in pickle"@,
    }
}

/// A digit in base sixteen.
fn hex_char(n: u8) -> (c: char)
    requires
        n < 16,
    ensures
        c == hex_digit(n as int),
{
    if n < 10 {
        (48u8 + n) as char
    } else {
        (87u8 + n) as char
    }
}

impl PickleError {
    /// The reason, in words, without the value that it is about.
    pub fn message(&self) -> (text: String)
        ensures
            text@ == pickle_message(self@),
    {
        match self {
            PickleError::EndOfStream => owned("unexpected end of pickle stream"),
            PickleError::UnterminatedLine => owned("unterminated pickle line"),
            PickleError::StackUnderflow => owned("pickle stack underflow"),
            PickleError::MarkUnderflow => owned("pickle mark stack underflow"),
            PickleError::MarkAboveStack => owned("pickle mark is above the stack"),
            PickleError::InvalidLong(line) => phrase("invalid pickle LONG '", line.as_str(), "'"),
            PickleError::LongTooWide(len) => phrase(
                "pickle LONG with ",
                decimal_text(*len as u64).as_str(),
                " bytes does not fit in i64",
            ),
            PickleError::InvalidUnicode => owned("invalid UTF-8 in pickle BINUNICODE"),
            PickleError::InvalidShortUnicode => owned("invalid UTF-8 in pickle SHORT_BINUNICODE"),
            PickleError::MemoNotSet(index) => phrase(
                "pickle memo index ",
                decimal_text(*index as u64).as_str(),
                " not set",
            ),
            PickleError::MemoFull => owned("pickle memo is full"),
            PickleError::EmptyAtStop => owned("empty pickle stack at STOP"),
            PickleError::UnsupportedOpcode(op, at) => {
                let mut text = owned("unsupported pickle opcode 0x");
                text.push(hex_char(*op / 16));
                text.push(hex_char(*op % 16));
                text.append(" at byte ");
                text.append(decimal_text(*at as u64).as_str());
                text.append("; use --silence-raw instead");
                text
            },
            PickleError::NonGlobalCallable => owned(
                "pickle REDUCE on a non-global callable is not supported",
            ),
            PickleError::MissingStorageId => owned(
                "malformed _rebuild_tensor_v2 call (missing storage persistent id)",
            ),
            PickleError::StorageIdNotTuple => owned(
                "malformed _rebuild_tensor_v2 call (storage id is not a tuple)",
            ),
            PickleError::UnexpectedStorageTuple => owned(
                "malformed _rebuild_tensor_v2 call (unexpected storage tuple)",
            ),
            PickleError::UnexpectedStorageClass(_) => owned("unexpected storage class in pickle"),
            PickleError::UnexpectedStorageKey(_) => owned("unexpected storage key in pickle"),
            PickleError::UnexpectedStorageOffset(_) => owned("unexpected storage offset in pickle"),
            PickleError::UnexpectedDimension(_) => owned("unexpected tensor dimension in pickle"),
            PickleError::UnexpectedSize(_) => owned("unexpected tensor size in pickle"),
        }
    }
}

/// The reason for refusing tensor data.
pub open spec fn decode_message(fault: DecodeFault) -> Seq<char> {
    match fault {
        DecodeFault::OddBfloat16 => "odd byte count for bf16 tensor data"@,
        DecodeFault::OddHalf => "odd byte count for f16 tensor data"@,
        DecodeFault::NotSingles => "byte count is not a multiple of 4 for f32 tensor data"@,
        DecodeFault::NotDoubles => "byte count is not a multiple of 8 for f64 storage"@,
        DecodeFault::UnsupportedDtype(name) => "unsupported safetensors dtype "@ + name
            + " (expected BF16, F16 or F32)"@,
        DecodeFault::UnsupportedStorage(name) => "unsupported torch storage type '"@ + name
            + "' (expected Float/Double/Half/BFloat16); use --silence-raw instead"@,
    }
}

impl DecodeError {
    /// The reason, in words.
    pub fn message(&self) -> (text: String)
        ensures
            text@ == decode_message(self@),
    {
        match self {
            DecodeError::OddBfloat16 => owned("odd byte count for bf16 tensor data"),
            DecodeError::OddHalf => owned("odd byte count for f16 tensor data"),
            DecodeError::NotSingles => owned(
                "byte count is not a multiple of 4 for f32 tensor data",
            ),
            DecodeError::NotDoubles => owned("byte count is not a multiple of 8 for f64 storage"),
            DecodeError::UnsupportedDtype(name) => phrase(
                "unsupported safetensors dtype ",
                name.as_str(),
                " (expected BF16, F16 or F32)",
            ),
            DecodeError::UnsupportedStorage(name) => phrase(
                "unsupported torch storage type '",
                name.as_str(),
                "' (expected Float/Double/Half/BFloat16); use --silence-raw instead",
            ),
        }
    }
}

} // verus!
