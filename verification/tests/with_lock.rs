//! Publishing under a lock: arguments, requests, and the order of things.

use kiss_cache::gcroots::{skips, Entry, GcRoots};
use kiss_cache::lock::{lock_id, AcquireEvent, LockEntry, STALE_AFTER};
use kiss_cache::path::last_name;
use kiss_cache::publish::{
    command_code, run_publish, CommandStatus, PublishAction, PublishEvent, PublishStage,
};
use kiss_cache::with_lock::{
    job_name, parse_args, run, Args, Backend, Effect, Request, Task, USAGE,
};
use kiss_cache::writer::{
    fresh_prune_lock, put_lock_local, RefreshAction, Refresher, TakeAction, TakeStage,
    REFRESH_INTERVAL,
};

fn words(list: &[&str]) -> Vec<String> {
    list.iter().map(|s| s.to_string()).collect()
}

fn publish(list: &[&str]) -> Args {
    match parse_args(&words(list)) {
        Ok(Request::Publish(args)) => args,
        other => panic!("{other:?}"),
    }
}

#[test]
fn parses_a_full_command_line() {
    let args = publish(&[
        "--bearer", "old", "--bearer", "token", "https://c/gcroots/web1", "/nix/store/x", "--cert",
        "w.pem", "--", "nix", "copy", "--", "-h",
    ]);
    assert_eq!(args.marker(), "https://c/gcroots/web1");
    assert_eq!(args.store_path(), "/nix/store/x");
    assert_eq!(args.command(), &words(&["nix", "copy", "--", "-h"]));
    assert_eq!(args.bearer(), &Some("token".to_string()));
    let args = publish(&["m", "s", "--", "true"]);
    assert_eq!(args.bearer(), &None);
    assert_eq!(args.command(), &words(&["true"]));
}

#[test]
fn help_is_asked_for_first() {
    for help in ["-h", "--help"] {
        assert!(matches!(parse_args(&words(&[help])), Ok(Request::Help)));
        assert!(matches!(parse_args(&words(&[help, "x"])), Ok(Request::Help)));
    }
    // Anywhere else it is an argument like any other.
    assert_eq!(publish(&["m", "-h", "--", "x"]).store_path(), "-h");
}

#[test]
fn refuses_malformed_arguments() {
    let error = |list: &[&str]| parse_args(&words(list)).unwrap_err();
    let missing = format!("--bearer needs a token\n\n{USAGE}");
    assert_eq!(error(&["--bearer"]), missing);
    assert_eq!(error(&["--bearer", "a", "--bearer"]), missing);
    assert_eq!(error(&[]), USAGE);
    assert_eq!(error(&["marker"]), USAGE);
    assert_eq!(error(&["--bearer", "t", "marker"]), USAGE);
    let missing = format!("missing '-- COMMAND'\n\n{USAGE}");
    assert_eq!(error(&["m", "s"]), missing);
    assert_eq!(error(&["m", "s", "--cert", "x"]), missing);
    assert_eq!(error(&["m", "s", "--"]), missing);
    assert_eq!(error(&["m", "s", "--cert", "--"]), missing);
}

#[test]
fn the_usage_is_whole() {
    let first = "Run a publish command under a kiss-cache pruner lock, then write a\n";
    assert!(USAGE.starts_with(first));
    assert!(USAGE.ends_with("publish does not run. See docs/pruner.md for the protocol."));
    assert!(USAGE.contains("Usage: kiss-cache with-lock [-h|--help] [--bearer TOKEN]\n"));
}

fn curl(effect: Effect) -> Vec<String> {
    match effect {
        Effect::Curl(args) => args,
        other => panic!("{other:?}"),
    }
}

#[test]
fn a_remote_marker_goes_through_curl() {
    let args = publish(&[
        "--bearer", "t0k", "https://cache.example.org/gcroots/web1", "/nix/store/x", "--cacert",
        "ca.pem", "--", "true",
    ]);
    let backend = Backend::from_args(&args);
    let base = words(&[
        "--fail", "--silent", "--show-error", "--max-time", "30", "-H",
        "Authorization: Bearer t0k", "--cacert", "ca.pem",
    ]);
    let with = |more: &[&str]| [base.clone(), words(more)].concat();
    let lock = backend.lock_path(&job_name(args.marker()));
    assert_eq!(lock, "https://cache.example.org/gcroots/.lock/web1");
    assert_eq!(
        curl(backend.put_lock(&lock)),
        with(&[
            "--retry", "60", "--retry-delay", "5", "--retry-all-errors", "-X", "PUT", "--data",
            "shared", &lock,
        ])
    );
    assert_eq!(
        curl(backend.refresh_lock(&lock)),
        with(&["-X", "PUT", "--data", "shared", &lock])
    );
    assert_eq!(curl(backend.del_lock(&lock)), with(&["-X", "DELETE", &lock]));
    assert_eq!(
        curl(backend.put_marker(args.marker(), args.store_path())),
        with(&["-X", "PUT", "--data-binary", "/nix/store/x\n", args.marker()])
    );
}

#[test]
fn without_a_token_there_is_no_header() {
    let args = publish(&["http://c/m", "s", "--", "true"]);
    let backend = Backend::from_args(&args);
    assert_eq!(
        curl(backend.del_lock("L")),
        words(&["--fail", "--silent", "--show-error", "--max-time", "30", "-X", "DELETE", "L"])
    );
}

#[test]
fn a_local_marker_stays_in_the_file_system() {
    let args =
        publish(&["/var/lib/nix-cache/gcroots/web\u{e9}", "/nix/store/x", "-k", "--", "true"]);
    let backend = Backend::from_args(&args);
    let lock = backend.lock_path(&job_name(args.marker()));
    assert_eq!(lock, "/var/lib/nix-cache/gcroots/.lock/web\u{e9}");
    match backend.put_lock(&lock) {
        Effect::TakeLock { dir, lock: file } => {
            assert_eq!(dir, b"/var/lib/nix-cache/gcroots/.lock");
            assert_eq!(file, lock);
        }
        other => panic!("{other:?}"),
    }
    assert!(matches!(backend.refresh_lock(&lock), Effect::TouchLock(file) if file == lock));
    assert!(matches!(backend.del_lock(&lock), Effect::RemoveLock(file) if file == lock));
    match backend.put_marker(args.marker(), args.store_path()) {
        Effect::PlaceMarker { temp, contents, marker } => {
            assert_eq!(temp, "/var/lib/nix-cache/gcroots/.web\u{e9}.tmp".as_bytes());
            assert_eq!(contents, "/nix/store/x\n");
            assert_eq!(marker, "/var/lib/nix-cache/gcroots/web\u{e9}");
            assert!(skips(1, last_name(&temp).unwrap()));
        }
        other => panic!("{other:?}"),
    }
}

#[test]
fn markers_without_a_directory() {
    let backend = Backend::from_args(&publish(&["web1", "s", "--", "true"]));
    assert_eq!(backend.lock_path(&job_name("web1")), ".lock/web1");
    assert_eq!(job_name("a/b/"), "");
    assert_eq!(job_name("https://host"), "host");
    match backend.put_marker("..", "s") {
        Effect::PlaceMarker { temp, marker, .. } => {
            assert_eq!(temp, b"..tmp");
            assert_eq!(marker, "..");
        }
        other => panic!("{other:?}"),
    }
}

#[test]
fn what_is_published_is_a_root() {
    let hash = "0123456789abcdefghijklmnopqrstuv";
    for tail in ["-sys", "", "-sys\r", "\r", "\n/tmp", "-sys/bin\nx\n", "/"] {
        let store_path = format!("/nix//./store/{hash}{tail}");
        let args = publish(&["/g/web1", &store_path, "--", "true"]);
        match Backend::from_args(&args).put_marker(args.marker(), args.store_path()) {
            Effect::PlaceMarker { contents, .. } => {
                let mut roots = GcRoots::new();
                roots.scan(b"/g/web1", &Entry::File(contents.into_bytes()));
                assert_eq!(roots.root_hashes()[0].as_str(), hash);
            }
            other => panic!("{other:?}"),
        }
    }
}

fn lock(name: &str, age: u128) -> LockEntry {
    LockEntry { name: format!("/g/.lock/{name}").into_bytes(), age }
}

#[test]
fn only_fresh_locks_of_the_pruner_stop_a_writer() {
    assert!(!fresh_prune_lock(&vec![]));
    assert!(!fresh_prune_lock(&vec![lock("web1", 0), lock("a-prune-1", 0)]));
    assert!(fresh_prune_lock(&vec![lock("web1", 0), lock("prune-1-2", STALE_AFTER)]));
    assert!(!fresh_prune_lock(&vec![lock("prune-1-2", STALE_AFTER + 1)]));
    assert!(fresh_prune_lock(&vec![lock(&lock_id(7, 8), 0)]));
}

#[test]
fn a_writer_waits_for_the_prune_and_rechecks() {
    let prune = || AcquireEvent::Locks(vec![lock("prune-1-2", 0)]);
    let clear = || AcquireEvent::Locks(vec![lock("web2", 0)]);
    let mut stage = TakeStage::Creating;
    let mut step = |event: AcquireEvent<()>| {
        let (next, action) = put_lock_local(stage, event);
        stage = next;
        action
    };
    assert!(matches!(step(AcquireEvent::Done), TakeAction::ReadLocks));
    assert!(matches!(step(prune()), TakeAction::Sleep(5)));
    assert!(matches!(step(AcquireEvent::Done), TakeAction::ReadLocks));
    assert!(matches!(step(clear()), TakeAction::WriteLock));
    assert!(matches!(step(AcquireEvent::Done), TakeAction::ReadLocks));
    // A pruner raced in.
    assert!(matches!(step(prune()), TakeAction::RemoveLock));
    assert!(matches!(step(AcquireEvent::Failed(())), TakeAction::Sleep(1)));
    assert!(matches!(step(AcquireEvent::Done), TakeAction::ReadLocks));
    assert!(matches!(step(clear()), TakeAction::WriteLock));
    assert!(matches!(step(AcquireEvent::Done), TakeAction::ReadLocks));
    assert!(matches!(step(clear()), TakeAction::Finish(Ok(()))));
    assert_eq!(stage, TakeStage::Ended(true));
}

#[test]
fn a_writer_fails_where_it_cannot_write() {
    let fail = || AcquireEvent::Failed("no");
    assert!(matches!(
        put_lock_local(TakeStage::Creating, fail()),
        (TakeStage::Ended(false), TakeAction::Finish(Err("no")))
    ));
    assert!(matches!(
        put_lock_local(TakeStage::Writing, fail()),
        (TakeStage::Ended(false), TakeAction::Finish(Err("no")))
    ));
    // Locks that cannot be listed count as none.
    assert!(matches!(
        put_lock_local(TakeStage::Checking, fail()),
        (TakeStage::Writing, TakeAction::WriteLock)
    ));
    assert!(matches!(
        put_lock_local(TakeStage::Rechecking, fail()),
        (TakeStage::Ended(true), TakeAction::Finish(Ok(())))
    ));
}

#[test]
fn the_refresher_refreshes_every_five_minutes() {
    assert_eq!(REFRESH_INTERVAL, 5 * 60);
    let mut refresher = Refresher::new();
    for _ in 0..2 {
        for _ in 0..300 {
            assert_eq!(refresher.step(false), RefreshAction::Sleep);
        }
        assert_eq!(refresher.step(false), RefreshAction::Refresh);
    }
    assert_eq!(refresher.step(false), RefreshAction::Sleep);
    assert_eq!(refresher.step(true), RefreshAction::Quit);
}

/// The actions of a publish to which these events happen.
fn actions(events: &[PublishEvent]) -> Vec<PublishAction> {
    let mut stage = PublishStage::Locking;
    events
        .iter()
        .map(|e| {
            let (next, action) = run_publish(stage, *e);
            stage = next;
            action
        })
        .collect()
}

#[test]
fn a_publish_that_goes_well() {
    assert_eq!(
        actions(&[
            PublishEvent::LockTaken,
            PublishEvent::CommandEnded(CommandStatus::Succeeded, false),
            PublishEvent::MarkerWritten,
            PublishEvent::LockReleased,
        ]),
        [
            PublishAction::RunCommand,
            PublishAction::WriteMarker,
            PublishAction::ReleaseLock,
            PublishAction::Exit(0),
        ]
    );
}

#[test]
fn without_the_lock_nothing_is_published() {
    assert_eq!(
        actions(&[PublishEvent::LockRefused, PublishEvent::LockTaken]),
        [PublishAction::Exit(1), PublishAction::Exit(1)]
    );
}

#[test]
fn a_lost_lock_aborts_the_publish() {
    for status in
        [CommandStatus::Succeeded, CommandStatus::Failed(Some(7)), CommandStatus::NotRun]
    {
        assert_eq!(
            actions(&[
                PublishEvent::LockTaken,
                PublishEvent::CommandEnded(status, true),
                PublishEvent::LockReleased,
            ]),
            [PublishAction::RunCommand, PublishAction::ReleaseLock, PublishAction::Exit(1)]
        );
    }
}

#[test]
fn a_failed_command_gives_its_code() {
    for (code, exit) in [(Some(7), 7), (Some(255), 255), (Some(256), 1), (Some(-1), 1), (None, 1)] {
        assert_eq!(command_code(code), exit);
        assert_eq!(
            actions(&[
                PublishEvent::LockTaken,
                PublishEvent::CommandEnded(CommandStatus::Failed(code), false),
                PublishEvent::LockReleased,
            ]),
            [PublishAction::RunCommand, PublishAction::ReleaseLock, PublishAction::Exit(exit)]
        );
    }
    assert_eq!(
        actions(&[
            PublishEvent::LockTaken,
            PublishEvent::CommandEnded(CommandStatus::NotRun, false),
            PublishEvent::LockReleased,
        ])
        .last(),
        Some(&PublishAction::Exit(1))
    );
}

#[test]
fn a_marker_that_cannot_be_written_is_a_failure() {
    assert_eq!(
        actions(&[
            PublishEvent::LockTaken,
            PublishEvent::CommandEnded(CommandStatus::Succeeded, false),
            PublishEvent::MarkerFailed,
            PublishEvent::LockReleased,
        ])[2..],
        [PublishAction::ReleaseLock, PublishAction::Exit(1)]
    );
}

#[test]
fn a_run_from_beginning_to_end() {
    let args = publish(&["/g/web1", "/nix/store/x", "--", "true"]);
    let mut it = run(&args);
    assert_eq!(it.lock(), "/g/.lock/web1");
    assert!(matches!(
        it.first(),
        Task::TakeLock(Effect::TakeLock { dir, lock }) if dir == b"/g/.lock" && lock == *it.lock()
    ));
    match it.step(PublishEvent::LockTaken) {
        Task::RunCommand { launch, refresh } => {
            assert_eq!(launch.words, words(&["true"]));
            assert!(launch.env.is_empty());
            assert!(matches!(refresh, Effect::TouchLock(lock) if lock == "/g/.lock/web1"));
        }
        other => panic!("{other:?}"),
    }
    assert!(matches!(
        it.step(PublishEvent::CommandEnded(CommandStatus::Succeeded, false)),
        Task::WriteMarker(Effect::PlaceMarker { temp, marker, .. })
            if temp == b"/g/.web1.tmp" && marker == "/g/web1"
    ));
    assert!(matches!(
        it.step(PublishEvent::MarkerWritten),
        Task::ReleaseLock(Effect::RemoveLock(lock)) if lock == "/g/.lock/web1"
    ));
    assert!(matches!(it.step(PublishEvent::LockReleased), Task::Exit(0)));
}

#[test]
fn the_command_gets_the_token() {
    let args = publish(&["--bearer", "t", "/g/web1", "/nix/store/x", "--", "nix", "copy", "x"]);
    let launch = args.launch();
    assert_eq!(launch.words, words(&["nix", "copy", "x"]));
    assert_eq!(launch.env, [("KISS_CACHE_TOKEN".to_string(), "t".to_string())]);
}

#[test]
fn a_run_against_a_remote_cache() {
    let args = publish(&["https://c/g/web1", "/nix/store/x", "--", "true"]);
    let mut it = run(&args);
    assert_eq!(it.lock(), "https://c/g/.lock/web1");
    match it.first() {
        Task::TakeLock(Effect::Curl(words)) => assert_eq!(words.last().unwrap(), it.lock()),
        other => panic!("{other:?}"),
    }
    assert!(matches!(it.step(PublishEvent::LockRefused), Task::Exit(1)));
}

#[test]
fn a_later_run_has_the_same_lock() {
    for marker in ["https://c/g/web1", "/g/web1"] {
        let first = publish(&[marker, "/nix/store/x", "--", "true"]);
        let later = publish(&["--bearer", "t", marker, "/nix/store/y", "-k", "--", "false"]);
        assert_eq!(run(&first).lock(), run(&later).lock());
    }
}
