//! What the user of the converter is told.

use vstd::prelude::*;

use crate::convert::archive::ZipFault;
use crate::convert::decode::DecodeFault;
use crate::convert::messages::{
    decode_message, options_message, pickle_message, zip_message, HELP,
};
use crate::convert::options::{Flag, OptionsFault};
use crate::convert::pickle::Fault;
use crate::text::decimal;

verus! {

/// The words of an option.
pub open spec fn words_of(flag: Flag) -> Seq<char> {
    match flag {
        Flag::Component => "component"@,
        Flag::Input => "input"@,
        Flag::Output => "output"@,
        Flag::SilenceRaw => "silence-raw"@,
        Flag::SilenceShape => "silence-shape"@,
    }
}

/// A refusal of the arguments names the option or repeats the words that it is about.
pub proof fn lemma_options_refused(flag: Flag, text: Seq<char>)
    ensures
        options_message(OptionsFault::Help) == HELP@,
        options_message(OptionsFault::MissingValue(flag)) == "missing value after --"@ + words_of(
            flag,
        ),
        options_message(OptionsFault::ValueNotUtf8(flag)) == words_of(flag)
            + " value must be valid UTF-8"@,
        options_message(OptionsFault::UnsupportedComponent(text)) == "unsupported component '"@
            + text + "', expected one of: text-encoder, lm, dit, condition, vae, silence"@,
        options_message(OptionsFault::InvalidDimension(text)) == "silence-shape dimension '"@ + text
            + "' is not a whole number"@,
        options_message(OptionsFault::UnknownArgument(text)) == "unknown argument '"@ + text + "'"@,
        options_message(OptionsFault::ArgumentNotUtf8) == "arguments must be valid UTF-8"@,
        options_message(OptionsFault::EmptyDimension)
            == "silence-shape must be a non-empty list of positive dimensions"@,
        options_message(OptionsFault::MissingComponent) == "missing required --component"@,
        options_message(OptionsFault::SilenceOptionElsewhere)
            == "--silence-raw/--silence-shape only apply to the silence component"@,
        options_message(OptionsFault::MissingInput) == "missing required --input"@,
        options_message(OptionsFault::MissingOutput) == "missing required --output"@,
        options_message(OptionsFault::MissingSilenceShape)
            == "--silence-shape is required with --silence-raw"@,
        options_message(OptionsFault::MissingSilenceInput)
            == "missing required --input (or use --silence-raw)"@,
{
    reveal_strlit("missing value after ");
    reveal_strlit("missing value after --");
    reveal_strlit("component");
    reveal_strlit("input");
    reveal_strlit("output");
    reveal_strlit("silence-raw");
    reveal_strlit("silence-shape");
    reveal_strlit("--component");
    reveal_strlit("--input");
    reveal_strlit("--output");
    reveal_strlit("--silence-raw");
    reveal_strlit("--silence-shape");
    let dashes = seq!['-', '-'];
    assert("--component"@ =~= dashes + "component"@);
    assert("--input"@ =~= dashes + "input"@);
    assert("--output"@ =~= dashes + "output"@);
    assert("--silence-raw"@ =~= dashes + "silence-raw"@);
    assert("--silence-shape"@ =~= dashes + "silence-shape"@);
    assert("missing value after --"@ =~= "missing value after "@ + dashes);
    assert(flag.text() == dashes + words_of(flag));
    assert("missing value after "@ + (dashes + words_of(flag)) =~= "missing value after "@ + dashes
        + words_of(flag));
    assert((dashes + words_of(flag)).skip(2) =~= words_of(flag));
}

/// A refusal of an archive names the place or the entry that it is about.
pub proof fn lemma_archive_refused(name: Seq<char>, method: u16, at: nat)
    ensures
        zip_message(ZipFault::UnexpectedEnd(at as int)) == "unexpected end of zip data at offset "@
            + decimal(at),
        zip_message(ZipFault::CorruptDirectory(at as int))
            == "corrupt zip central directory at offset "@ + decimal(at),
        zip_message(ZipFault::Compressed(name, method)) == "zip entry '"@ + name
            + "' is compressed (method "@ + decimal(method as nat)
            + "); only uncompressed torch.save archives are supported — re-export the raw data and use --silence-raw instead"@,
        zip_message(ZipFault::CorruptLocalHeader(name)) == "corrupt zip local header for entry '"@
            + name + "'"@,
        zip_message(ZipFault::DataEnd(name)) == "unexpected end of zip data for entry '"@ + name
            + "'"@,
        zip_message(ZipFault::NoEndRecord) == "zip end of central directory not found"@,
        zip_message(ZipFault::Zip64)
            == "ZIP64 archives are not supported; use --silence-raw instead"@,
        zip_message(ZipFault::DirectoryEnd) == "unexpected end of zip central directory"@,
{
}

/// A refusal of a pickle stream names the opcode, the index or the number that it is about.
pub proof fn lemma_pickle_refused(text: Seq<char>, n: nat, index: u32, high: u8, low: u8)
    requires
        high < 10,
        low < 10,
    ensures
        pickle_message(Fault::InvalidLong(text)) == "invalid pickle LONG '"@ + text + "'"@,
        pickle_message(Fault::LongTooWide(n as int)) == "pickle LONG with "@ + decimal(n)
            + " bytes does not fit in i64"@,
        pickle_message(Fault::MemoNotSet(index)) == "pickle memo index "@ + decimal(index as nat)
            + " not set"@,
        pickle_message(Fault::UnsupportedOpcode((16 * high + low) as u8, n as int))
            == "unsupported pickle opcode 0x"@ + seq![
            (48 + high) as char,
            (48 + low) as char,
        ] + " at byte "@ + decimal(n) + "; use --silence-raw instead"@,
        pickle_message(Fault::EndOfStream) == "unexpected end of pickle stream"@,
        pickle_message(Fault::UnterminatedLine) == "unterminated pickle line"@,
        pickle_message(Fault::StackUnderflow) == "pickle stack underflow"@,
        pickle_message(Fault::MarkUnderflow) == "pickle mark stack underflow"@,
        pickle_message(Fault::EmptyAtStop) == "empty pickle stack at STOP"@,
        pickle_message(Fault::NonGlobalCallable)
            == "pickle REDUCE on a non-global callable is not supported"@,
{
    let op = (16 * high + low) as u8;
    assert(op as int / 16 == high);
    assert(op as int % 16 == low);
    let front = "unsupported pickle opcode 0x"@;
    let digits = seq![(48 + high) as char, (48 + low) as char];
    assert(front.push((48 + high) as char).push((48 + low) as char) =~= front + digits);
}

/// A refusal of data names the type that is not known, or that the bytes do not come out even.
pub proof fn lemma_data_refused(name: Seq<char>)
    ensures
        decode_message(DecodeFault::UnsupportedDtype(name)) == "unsupported safetensors dtype "@
            + name + " (expected BF16, F16 or F32)"@,
        decode_message(DecodeFault::UnsupportedStorage(name)) == "unsupported torch storage type '"@
            + name
            + "' (expected Float/Double/Half/BFloat16); use --silence-raw instead"@,
        decode_message(DecodeFault::OddBfloat16) == "odd byte count for bf16 tensor data"@,
        decode_message(DecodeFault::OddHalf) == "odd byte count for f16 tensor data"@,
        decode_message(DecodeFault::NotSingles)
            == "byte count is not a multiple of 4 for f32 tensor data"@,
        decode_message(DecodeFault::NotDoubles)
            == "byte count is not a multiple of 8 for f64 storage"@,
{
}

} // verus!
