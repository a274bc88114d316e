//! The command line of the converter.

use maolan_generate::convert::messages::help_text;
use maolan_generate::convert::names::Component;
use maolan_generate::convert::options::{
    checkpoint_action, parse_args, silence_source, silence_target, Action, Flag, Options,
    OptionsError, SilenceSource,
};

fn args(list: &[&str]) -> Vec<Option<String>> {
    let mut all = vec![Some("acestep_convert".to_string())];
    all.extend(list.iter().map(|arg| Some(arg.to_string())));
    all
}

fn parse(list: &[&str]) -> Result<Options, OptionsError> {
    parse_args(&args(list))
}

fn refused(list: &[&str]) -> OptionsError {
    match parse(list) {
        Ok(_) => panic!("must be refused"),
        Err(error) => error,
    }
}

#[test]
fn a_conversion() {
    let options = parse(&["--component", "dit", "--input", "in", "--output", "out"]).unwrap();
    assert_eq!(options.component, Component::Dit);
    assert_eq!((options.input, options.output), (Some(4), Some(6)));
    assert!(!options.list);
    assert!(matches!(checkpoint_action(&options), Ok(Action::Convert(4, 6))));
}

#[test]
fn the_last_option_wins() {
    let options = parse(&["--component", "lm", "--input", "a", "--input", "b", "--component", "vae"]).unwrap();
    assert_eq!(options.component, Component::Vae);
    assert_eq!(options.input, Some(6));
}

#[test]
fn a_listing_needs_no_output() {
    let options = parse(&["--component", "vae", "--input", "in", "--list"]).unwrap();
    assert!(matches!(checkpoint_action(&options), Ok(Action::List(4))));
    let options = parse(&["--component", "vae", "--list"]).unwrap();
    assert!(matches!(checkpoint_action(&options), Err(OptionsError::MissingInput)));
    let options = parse(&["--component", "vae", "--input", "in"]).unwrap();
    assert!(matches!(checkpoint_action(&options), Err(OptionsError::MissingOutput)));
}

#[test]
fn silence_comes_from_either_place() {
    let raw = parse(&[
        "--component", "silence", "--silence-raw", "raw", "--silence-shape", "1, 2,64", "--output", "out",
    ])
    .unwrap();
    match silence_source(&raw) {
        Ok(SilenceSource::Raw(place, shape)) => assert_eq!((place, shape), (4, vec![1, 2, 64])),
        _ => panic!("a raw latent"),
    }
    assert!(matches!(silence_target(&raw), Ok(Some(8))));
    let archive = parse(&["--component", "silence", "--input", "in", "--list"]).unwrap();
    assert!(matches!(silence_source(&archive), Ok(SilenceSource::Archive(4))));
    assert!(matches!(silence_target(&archive), Ok(None)));
    let shapeless = parse(&["--component", "silence", "--silence-raw", "raw"]).unwrap();
    assert!(matches!(silence_source(&shapeless), Err(OptionsError::MissingSilenceShape)));
    assert!(matches!(silence_target(&shapeless), Err(OptionsError::MissingOutput)));
    let nothing = parse(&["--component", "silence"]).unwrap();
    assert!(matches!(silence_source(&nothing), Err(OptionsError::MissingSilenceInput)));
}

#[test]
fn refusals() {
    assert!(matches!(refused(&["--help"]), OptionsError::Help));
    assert!(matches!(refused(&["-h"]), OptionsError::Help));
    assert_eq!(refused(&["-h"]).message(), help_text());
    assert!(matches!(refused(&["--input"]), OptionsError::MissingValue(Flag::Input)));
    assert!(matches!(refused(&["--component", "x"]), OptionsError::UnsupportedComponent(_)));
    assert!(matches!(
        refused(&["--component", "silence", "--silence-shape", "1,x"]),
        OptionsError::InvalidDimension(_)
    ));
    assert!(matches!(
        refused(&["--component", "silence", "--silence-shape", "1,0"]),
        OptionsError::EmptyDimension
    ));
    assert!(matches!(refused(&["--what"]), OptionsError::UnknownArgument(_)));
    assert!(matches!(refused(&[]), OptionsError::MissingComponent));
    assert!(matches!(
        refused(&["--component", "dit", "--silence-raw", "x"]),
        OptionsError::SilenceOptionElsewhere
    ));
    assert!(matches!(
        parse_args(&vec![Some("program".to_string()), None]),
        Err(OptionsError::ArgumentNotUtf8)
    ));
    assert!(refused(&["--what"]).message().contains("--what"));
}
