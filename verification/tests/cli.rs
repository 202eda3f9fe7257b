//! The command line.

use kiss_cache::cli::{
    parse_command, parse_prune_args, Accept, ArgsError, Command, PruneOptions, PruneRequest, Token,
    PRUNE_USAGE, USAGE,
};
use kiss_cache::prune::Config;

fn words(list: &[&str]) -> Vec<String> {
    list.iter().map(|s| s.to_string()).collect()
}

fn config(list: &[&str]) -> Config {
    match parse_prune_args(words(list)) {
        Ok(PruneRequest::Run(config)) => config,
        other => panic!("{other:?}"),
    }
}

fn error(list: &[&str]) -> ArgsError {
    match parse_prune_args(words(list)) {
        Err(e) => e,
        other => panic!("{other:?}"),
    }
}

#[test]
fn commands() {
    match parse_command(&words(&["prune", "-n", "x"])) {
        Command::Prune(rest) => assert_eq!(rest, words(&["-n", "x"])),
        other => panic!("{other:?}"),
    }
    match parse_command(&words(&["with-lock"])) {
        Command::WithLock(rest) => assert!(rest.is_empty()),
        other => panic!("{other:?}"),
    }
    for help in ["-h", "--help"] {
        assert!(matches!(parse_command(&words(&[help, "x"])), Command::Help));
    }
    for version in ["-V", "--version"] {
        assert!(matches!(parse_command(&words(&[version])), Command::Version));
    }
    match parse_command(&words(&["Prune"])) {
        Command::Unknown(name) => assert_eq!(name, "Prune"),
        other => panic!("{other:?}"),
    }
    assert!(matches!(parse_command(&Vec::new()), Command::Missing));
}

#[test]
fn positional_arguments_and_defaults() {
    let c = config(&["/var/cache", "roots", "m\u{e9}"]);
    assert!(!c.dry_run);
    assert_eq!(c.cache_dir, b"/var/cache");
    assert_eq!(c.gcroots, [b"roots".to_vec(), "m\u{e9}".as_bytes().to_vec()]);
    assert_eq!(c.lock_wait, 600);
    let c = config(&["-", ""]);
    assert_eq!((c.cache_dir.as_slice(), c.gcroots), (&b"-"[..], vec![Vec::new()]));
}

#[test]
fn options_may_stand_anywhere() {
    for list in [
        ["-n", "--lock-wait", "5", "c", "g"],
        ["c", "--lock-wait", "5", "g", "-n"],
        ["c", "g", "--dry-run", "--lock-wait", "5"],
    ] {
        let c = config(&list);
        assert!(c.dry_run, "{list:?}");
        assert_eq!(c.lock_wait, 5);
        assert_eq!(c.cache_dir, b"c");
        assert_eq!(c.gcroots, [b"g".to_vec()]);
    }
    assert_eq!(config(&["--lock-wait=+7", "c", "g"]).lock_wait, 7);
    assert_eq!(config(&["--lock-wait", "1", "--lock-wait", "2", "c", "g"]).lock_wait, 2);
    assert!(config(&["-nn", "c", "g"]).dry_run);
}

#[test]
fn two_dashes_end_the_options() {
    let c = config(&["--", "-n", "--help"]);
    assert!(!c.dry_run);
    assert_eq!(c.cache_dir, b"-n");
    assert_eq!(c.gcroots, [b"--help".to_vec()]);
}

#[test]
fn help_is_given_as_soon_as_it_is_asked_for() {
    for list in [&["-h"][..], &["--help"], &["c", "-h"], &["-nh"], &["-h", "--bogus"]] {
        assert!(matches!(parse_prune_args(words(list)), Ok(PruneRequest::Help)), "{list:?}");
    }
    assert!(matches!(error(&["--bogus", "-h"]), ArgsError::InvalidOption(_)));
}

#[test]
fn unknown_options_are_refused() {
    match error(&["-x"]) {
        ArgsError::InvalidOption(option) => assert_eq!(option, "-x"),
        other => panic!("{other:?}"),
    }
    match error(&["c", "g", "--force"]) {
        ArgsError::InvalidOption(option) => assert_eq!(option, "--force"),
        other => panic!("{other:?}"),
    }
    match error(&["-nx"]) {
        ArgsError::InvalidOption(option) => assert_eq!(option, "-x"),
        other => panic!("{other:?}"),
    }
}

#[test]
fn the_time_to_wait_is_a_number() {
    for bad in ["soon", "-1", "", "1.5", "18446744073709551616"] {
        match error(&["--lock-wait", bad, "c", "g"]) {
            ArgsError::BadLockWait(value) => assert_eq!(value, bad),
            other => panic!("{other:?}"),
        }
    }
}

#[test]
fn the_lexer_has_its_say() {
    match error(&["c", "g", "--lock-wait"]) {
        ArgsError::Lex(e) => {
            assert_eq!(e.to_string(), "missing argument for option '--lock-wait'")
        }
        other => panic!("{other:?}"),
    }
    match error(&["--dry-run=yes", "c", "g"]) {
        ArgsError::Lex(e) => {
            assert_eq!(e.to_string(), "unexpected argument for option '--dry-run': \"yes\"")
        }
        other => panic!("{other:?}"),
    }
}

#[test]
fn both_directories_are_needed() {
    assert!(matches!(error(&[]), ArgsError::MissingCacheDir));
    assert!(matches!(error(&["-n"]), ArgsError::MissingCacheDir));
    assert!(matches!(error(&["c"]), ArgsError::MissingGcroots));
    assert!(matches!(error(&["c", "-n"]), ArgsError::MissingGcroots));
}

#[test]
fn tokens_one_by_one() {
    let mut options = PruneOptions::new();
    assert!(matches!(options.accept(&Token::Value("c".to_string())), Accept::More));
    assert!(matches!(options.accept(&Token::Short('n')), Accept::More));
    assert!(matches!(options.accept(&Token::Long("dry-run".to_string())), Accept::More));
    assert!(matches!(options.accept(&Token::Long("lock-wait".to_string())), Accept::LockWait));
    assert!(matches!(options.accept(&Token::Short('h')), Accept::Help));
    assert!(matches!(options.accept(&Token::Long("help".to_string())), Accept::Help));
    match options.accept(&Token::Long("x".to_string())) {
        Accept::Invalid(option) => assert_eq!(option, "--x"),
        other => panic!("{other:?}"),
    }
    match options.accept(&Token::Short('\u{e9}')) {
        Accept::Invalid(option) => assert_eq!(option, "-\u{e9}"),
        other => panic!("{other:?}"),
    }
    options.set_lock_wait(9);
    assert!(matches!(options.accept(&Token::Value("g".to_string())), Accept::More));
    match options.finish() {
        Ok(PruneRequest::Run(c)) => {
            assert!(c.dry_run);
            assert_eq!(c.lock_wait, 9);
            assert_eq!(c.cache_dir, b"c");
            assert_eq!(c.gcroots, [b"g".to_vec()]);
        }
        other => panic!("{other:?}"),
    }
}

#[test]
fn usages_are_whole() {
    assert!(USAGE.starts_with("kiss-cache: a self-hosted Nix binary cache pruner\n"));
    assert!(USAGE.ends_with("  -V, --version  Print version"));
    assert!(PRUNE_USAGE.starts_with("Trim Nix binary caches according to GC roots\n"));
    assert!(PRUNE_USAGE.ends_with("  -h, --help            Print help"));
}

#[test]
fn argument_errors_can_be_told() {
    let text = |list: &[&str]| {
        error(list).to_text(|value: &String| format!("bad {value}"))
    };
    assert_eq!(text(&["--bogus"]), "invalid option '--bogus'");
    assert_eq!(text(&["--lock-wait", "soon"]), "bad soon");
    assert_eq!(text(&["--lock-wait"]), "missing argument for option '--lock-wait'");
    assert_eq!(text(&["-n", "c", "--lock-wait"]), "missing argument for option '--lock-wait'");
    assert_eq!(text(&["--dry-run=x"]), "unexpected argument for option '--dry-run': \"x\"");
    assert_eq!(text(&["-n=x"]), "unexpected argument for option '-n': \"x\"");
    assert_eq!(text(&[]), "missing required argument CACHEDIR");
    assert_eq!(text(&["c"]), "missing required argument GCROOTS");
}
