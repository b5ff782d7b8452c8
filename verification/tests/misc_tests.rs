use docq::error::{DocqError, EmbedError, LlmError, ModelError, ParseError, RetrieveError, StoreError, SynthError};
use docq::hub::ModelHub;
use docq::text::{decimal_string, has_prefix};
use docq::verbose::{Step, Verbose};
use std::path::PathBuf;

#[test]
fn error_messages_carry_the_stage() {
    let cases = vec![
        (DocqError::from(ParseError::Other("p".into())), "parse error: p"),
        (DocqError::from(StoreError::Other("s".into())), "store error: s"),
        (DocqError::from(EmbedError::Other("e".into())), "embed error: e"),
        (DocqError::from(RetrieveError::Other("r".into())), "retrieve error: r"),
        (DocqError::from(SynthError::Other("y".into())), "synth error: y"),
        (DocqError::from(LlmError::Other("l".into())), "llm error: l"),
        (DocqError::from(ModelError::Other("m".into())), "model error: m"),
    ];
    for (e, msg) in cases {
        assert_eq!(e.message(), msg);
    }
}

#[test]
fn decimal_rendering() {
    assert_eq!(decimal_string(0), "0");
    assert_eq!(decimal_string(7), "7");
    assert_eq!(decimal_string(1205), "1205");
    assert_eq!(decimal_string(u128::MAX), u128::MAX.to_string());
}

#[test]
fn prefixes() {
    assert!(has_prefix("/a/b/c.txt", "/a/b"));
    assert!(has_prefix("abc", ""));
    assert!(!has_prefix("/a", "/a/b"));
    assert!(!has_prefix("/ab", "/ac"));
}

#[test]
fn verbose_lines() {
    let on = Verbose(true);
    let off = Verbose(false);
    assert!(on.enabled());
    assert!(!off.enabled());
    assert_eq!(on.log_line("hi").as_deref(), Some("[docq] hi"));
    assert!(off.log_line("hi").is_none());
    let step = on.start("search");
    assert_eq!(step.start_line().as_deref(), Some("[docq] search..."));
    assert_eq!(step.finish_line(42).as_deref(), Some("[docq] search: 42 ms"));
    let quiet = Step::new(off, "search");
    assert!(quiet.start_line().is_none());
    assert!(quiet.finish_line(1).is_none());
    assert_eq!(on.step_line("embed", 1500).as_deref(), Some("[docq] embed: 1500 ms"));
    assert!(off.step_line("embed", 1500).is_none());
}

#[test]
fn hub_keeps_its_cache_dir() {
    let hub = ModelHub::new(PathBuf::from("/tmp/models"));
    assert_eq!(hub.cache_dir(), &PathBuf::from("/tmp/models"));
    let copy = hub.clone();
    assert_eq!(copy.cache_dir(), hub.cache_dir());
}
