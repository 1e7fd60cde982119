use rgx::builder::BuildStats;
use rgx::cli::{
    build_failed_line, build_stats_line, cannot_load_line, execute, execute_cfg, first_action,
    index_stats_line, index_time_line, invalid_pattern_line, json_escape, note_line, parse_args,
    part_time_line, plan_time_line, print_matches, query_stats_line, scan_opts, scan_time_line,
    search_root, Config, Launch, RunAction, RunEvent, INDEX_DIR_NAME, USAGE,
};
use rgx::matcher::Match;
use rgx::publish::{
    chunk_size, next_action, prepare_index_dir, publish_backoff, retry_remove, retryable, sibling_dir,
    transient_backoff, Publication, PublishAction, PublishEvent, RemoveOutcome,
};
use rgx::scanner::{
    contains_nul_byte, display_root, indexable_file, is_binary_extension, is_hidden,
    is_scanned_type, may_index, override_globs, FileFacts, ScanOptions, DEFAULT_MAX_FILE_SIZE,
};
use std::path::PathBuf;

#[test]
fn parse_basic() {
    let cfg = parse_args(vec!["foo".into(), "src".into()])
        .unwrap()
        .unwrap();
    assert_eq!(cfg.pattern, "foo");
    assert_eq!(PathBuf::from(&cfg.root), PathBuf::from("src"));
    assert!(!cfg.ignore_case);
}

#[test]
fn parse_flags() {
    let cfg = parse_args(vec!["-i".into(), "--json".into(), "foo".into()])
        .unwrap()
        .unwrap();
    assert!(cfg.ignore_case);
    assert!(cfg.json);
    assert_eq!(cfg.pattern, "foo");
}

#[test]
fn parse_double_dash_pattern() {
    let cfg = parse_args(vec!["--".into(), "-weird".into()])
        .unwrap()
        .unwrap();
    assert_eq!(cfg.pattern, "-weird");
}

#[test]
fn parse_missing_pattern_errors() {
    assert!(parse_args(vec![]).is_err());
    assert!(parse_args(vec!["--stats".into()]).is_err());
}

#[test]
fn json_escaping() {
    assert_eq!(json_escape("a\"b"), "\"a\\\"b\"");
    assert_eq!(json_escape("line1\nline2"), "\"line1\\nline2\"");
}

#[test]
fn json_escaping_of_every_kind() {
    assert_eq!(
        json_escape("\\ \r \t \u{0} \u{1f} \u{7f} \u{e9}"),
        "\"\\\\ \\r \\t \\u0000 \\u001f \u{7f} \u{e9}\""
    );
    assert_eq!(json_escape(""), "\"\"");
}

#[test]
fn parse_every_option() {
    let cfg = parse_args(
        [
            "--build", "--update", "--no-index", "--stats", "--time", "--follow", "--ignore-case",
            "p", "d",
        ]
        .iter()
        .map(|s| s.to_string())
        .collect(),
    )
    .unwrap()
    .unwrap();
    assert!(cfg.build && cfg.update && cfg.no_index && cfg.stats && cfg.time);
    assert!(cfg.follow_symlinks && cfg.ignore_case && !cfg.json);
    assert_eq!((cfg.pattern.as_str(), cfg.root.as_str()), ("p", "d"));
}

#[test]
fn parse_errors_and_help() {
    let args = |list: &[&str]| list.iter().map(|s| s.to_string()).collect::<Vec<String>>();
    assert_eq!(
        parse_args(args(&["--bogus"])).unwrap_err(),
        "unknown option: --bogus"
    );
    assert_eq!(
        parse_args(args(&["a", "b", "c"])).unwrap_err(),
        "too many arguments"
    );
    assert_eq!(parse_args(args(&[])).unwrap_err(), "missing PATTERN");
    assert!(parse_args(args(&["x", "-h", "--bogus"])).unwrap().is_none());
    let cfg = parse_args(args(&["-", "--", "--"])).unwrap().unwrap();
    assert_eq!((cfg.pattern.as_str(), cfg.root.as_str()), ("-", "--"));
}

/// The exit code and output of a call that looks at no file.
fn run(args: &[&str]) -> (i32, String, String) {
    match execute(args.iter().map(|s| s.to_string()).collect()) {
        Launch::Exit { code, out, err } => (code, out, err),
        Launch::Run(_) => panic!("ran"),
    }
}

#[test]
fn help_flag() {
    let (code, stdout, _) = run(&["--help"]);
    assert_eq!(code, 0);
    assert!(stdout.contains("USAGE"));
    assert!(stdout.contains("--no-index"));
}

#[test]
fn invalid_option_exits_2() {
    let (code, _stdout, stderr) = run(&["--bogus", "x"]);
    assert_eq!(code, 2);
    assert!(stderr.contains("unknown option"));
}

#[test]
fn wrong_arguments_are_explained() {
    let (code, stdout, stderr) = run(&[]);
    assert_eq!((code, stdout.as_str()), (2, ""));
    assert_eq!(stderr, format!("rgx: missing PATTERN\n\n{USAGE}\n"));
    match execute(vec!["x".into()]) {
        Launch::Run(cfg) => assert_eq!(cfg.pattern, "x"),
        Launch::Exit { .. } => panic!("exited"),
    }
}

fn config(options: &[&str]) -> Config {
    let mut args: Vec<String> = options.iter().map(|s| s.to_string()).collect();
    args.push("pattern".into());
    parse_args(args).unwrap().unwrap()
}

fn present(stale: bool) -> RunEvent {
    RunEvent::Inspected {
        lookup: true,
        postings: true,
        files: true,
        stale,
    }
}

#[test]
fn exit_codes() {
    let cfg = config(&[]);
    let step = |event| execute_cfg(&cfg, RunAction::SearchIndex, event);
    assert_eq!(
        step(RunEvent::Searched { matches: 3 }),
        RunAction::Exit { code: 0 }
    );
    assert_eq!(
        step(RunEvent::Searched { matches: 0 }),
        RunAction::Exit { code: 1 }
    );
    assert_eq!(step(RunEvent::InvalidPattern), RunAction::Exit { code: 2 });
}

#[test]
fn builds_automatically() {
    let cfg = config(&[]);
    assert_eq!(first_action(&cfg), RunAction::InspectIndex);
    for missing in 0..3 {
        let event = RunEvent::Inspected {
            lookup: missing != 0,
            postings: missing != 1,
            files: missing != 2,
            stale: false,
        };
        assert_eq!(
            execute_cfg(&cfg, RunAction::InspectIndex, event),
            RunAction::BuildIndex
        );
    }
    assert_eq!(
        execute_cfg(&cfg, RunAction::InspectIndex, present(false)),
        RunAction::OpenIndex
    );
    assert_eq!(
        execute_cfg(&cfg, RunAction::BuildIndex, RunEvent::Built { ok: true }),
        RunAction::OpenIndex
    );
    assert_eq!(
        execute_cfg(&cfg, RunAction::OpenIndex, RunEvent::Opened { ok: true }),
        RunAction::SearchIndex
    );
}

#[test]
fn update_is_incremental() {
    let inspect = |options: &[&str], event| {
        execute_cfg(&config(options), RunAction::InspectIndex, event)
    };
    assert_eq!(inspect(&["--update"], present(false)), RunAction::UpdateIndex);
    assert_eq!(
        inspect(&["--update", "--build"], present(false)),
        RunAction::BuildIndex
    );
    let missing = RunEvent::Inspected {
        lookup: false,
        postings: true,
        files: true,
        stale: false,
    };
    assert_eq!(inspect(&["--update"], missing), RunAction::BuildIndex);
}

#[test]
fn an_index_of_a_previous_format_is_rebuilt() {
    let cfg = config(&[]);
    assert_eq!(
        execute_cfg(&cfg, RunAction::InspectIndex, present(true)),
        RunAction::BuildIndex
    );
}

#[test]
fn corrupt_index_exits_2_without_panic() {
    let cfg = config(&[]);
    assert_eq!(
        execute_cfg(&cfg, RunAction::OpenIndex, RunEvent::Opened { ok: false }),
        RunAction::Exit { code: 2 }
    );
    assert_eq!(
        execute_cfg(&cfg, RunAction::BuildIndex, RunEvent::Built { ok: false }),
        RunAction::Exit { code: 2 }
    );
    assert_eq!(
        cannot_load_line("/r/.rgx", "bad magic"),
        "rgx: cannot load index at /r/.rgx: bad magic\n"
    );
}

#[test]
fn without_the_index_all_files_are_searched() {
    let cfg = config(&["--no-index"]);
    assert_eq!(first_action(&cfg), RunAction::ScanFiles);
    assert_eq!(
        execute_cfg(&cfg, RunAction::ScanFiles, RunEvent::Scanned),
        RunAction::SearchFiles
    );
}

#[test]
fn roots_and_scan_options() {
    assert_eq!(search_root(&config(&[])), ".");
    let mut cfg = config(&["--follow"]);
    cfg.root = "src".into();
    assert_eq!(search_root(&cfg), "src");
    assert!(scan_opts(&cfg).follow_symlinks);
    assert_eq!(scan_opts(&cfg).max_file_size, 1 << 20);
    assert_eq!(INDEX_DIR_NAME, ".rgx");
}

fn found(path: &str, line: u32, text: &str, submatches: Vec<(usize, usize)>) -> Match {
    Match {
        path: path.into(),
        line,
        text: text.into(),
        submatches,
    }
}

#[test]
fn plain_output_shape() {
    let matches = vec![
        found("a.rs", 4, "fn main() {", vec![]),
        found("b.rs", 120, "", vec![]),
    ];
    assert_eq!(print_matches(&matches, false), "a.rs:4:fn main() {\nb.rs:120:\n");
    assert_eq!(print_matches(&[], true), "");
}

#[test]
fn json_output_shape() {
    let line = found(
        "./src/main.rs",
        2,
        "    let s = \"hello world\";",
        vec![(13, 18), (19, 24)],
    );
    let text = print_matches(&[line, found("x", 1, "y", vec![])], true);
    let lines: Vec<&str> = text.lines().collect();
    assert_eq!(
        lines[0],
        "{\"path\":\"./src/main.rs\",\"line_number\":2,\"line\":\"    let s = \\\"hello world\\\";\",\"submatches\":[{\"start\":13,\"end\":18},{\"start\":19,\"end\":24}]}"
    );
    assert_eq!(
        lines[1],
        "{\"path\":\"x\",\"line_number\":1,\"line\":\"y\",\"submatches\":[]}"
    );
}

#[test]
fn stats_and_time_flags() {
    let stats = BuildStats {
        files: 3,
        bytes_read: 5 << 20,
        ngrams: 7,
        postings: 11,
        index_bytes: 13,
        reused_files: 2,
    };
    assert_eq!(
        build_stats_line(&stats, "1ms"),
        "rgx: build: 3 files (2 reused), 5 MiB read, 7 n-grams, 11 postings, index 13 bytes (1ms)\n"
    );
    assert_eq!(
        index_stats_line(3, 7, 11),
        "rgx: index: 3 files, 7 n-grams, 11 postings\n"
    );
    assert_eq!(
        query_stats_line(5, 2, 1),
        "rgx: query: 5 n-grams, 2 candidates, 1 matches\n"
    );
    assert_eq!(
        index_time_line(true, "9ms", &stats),
        "rgx: index update: 9ms (3 files, 2 reused, 7 n-grams)\n"
    );
    assert_eq!(
        index_time_line(false, "9ms", &stats),
        "rgx: index build: 9ms (3 files, 2 reused, 7 n-grams)\n"
    );
    assert_eq!(
        plan_time_line(1, 2, 30),
        "rgx: plan: 1 ms, candidates: 2 ms, 30 candidates\n"
    );
    assert_eq!(
        scan_time_line(18446744073709551615, 10),
        "rgx: scan (no-index): 18446744073709551615 ms (10 files)\n"
    );
    assert_eq!(part_time_line("total", "3ms"), "rgx: total: 3ms\n");
    assert_eq!(note_line("scanning"), "rgx: scanning\n");
    assert_eq!(build_failed_line("disk full"), "rgx: index build failed: disk full\n");
    assert_eq!(invalid_pattern_line("bad"), "rgx: invalid pattern: bad\n");
}

fn facts(name: &str, extension: Option<&str>, size: u64) -> FileFacts {
    FileFacts {
        name: Some(name.to_string()),
        extension: extension.map(|e| e.to_string()),
        size: Some(size),
    }
}

#[test]
fn which_files_are_indexed() {
    let opts = ScanOptions::default();
    assert_eq!(opts.max_file_size, DEFAULT_MAX_FILE_SIZE);
    assert!(!opts.follow_symlinks);
    assert!(indexable_file(&facts("a.txt", Some("txt"), 5), Some(b"hello"), &opts));
    assert!(!indexable_file(&facts(".hidden.txt", Some("txt"), 5), Some(b"hello"), &opts));
    assert!(!indexable_file(&facts("bin.dat", Some("dat"), 4), Some(&[1, 2, 0, 3]), &opts));
    assert!(!indexable_file(&facts("a.PNG", Some("PNG"), 5), Some(b"hello"), &opts));
    assert!(!indexable_file(&facts("a.txt", Some("txt"), 5), None, &opts));
    assert!(!may_index(&facts("a.txt", Some("txt"), 0), &opts));
    assert!(may_index(&facts("a.txt", Some("txt"), 1 << 20), &opts));
    assert!(!may_index(&facts("a.txt", Some("txt"), (1 << 20) + 1), &opts));
    let unknown = FileFacts {
        name: None,
        extension: None,
        size: None,
    };
    assert!(!may_index(&unknown, &opts));
}

#[test]
fn names_extensions_and_null_bytes() {
    assert!(is_hidden(Some(".git")));
    assert!(!is_hidden(Some("a.git")));
    assert!(!is_hidden(Some("")));
    assert!(!is_hidden(None));
    assert!(is_binary_extension("SQLite3"));
    assert!(is_binary_extension("log"));
    assert!(!is_binary_extension("rs"));
    assert!(is_binary_extension("DS_Store"));
    let mut long = vec![1u8; 600];
    long[512] = 0;
    assert!(!contains_nul_byte(Some(&long)));
    long[511] = 0;
    assert!(contains_nul_byte(Some(&long)));
    assert!(contains_nul_byte(None));
    assert!(!contains_nul_byte(Some(b"")));
    let mut follow = ScanOptions::default();
    assert!(is_scanned_type(true, false, &follow));
    assert!(!is_scanned_type(false, true, &follow));
    follow.follow_symlinks = true;
    assert!(is_scanned_type(false, true, &follow));
    assert!(!is_scanned_type(false, false, &follow));
}

#[test]
fn ignored_directories_become_override_globs() {
    let globs = override_globs();
    assert_eq!(globs.len(), 44);
    assert_eq!(
        &globs[..4],
        &[
            "!node_modules".to_string(),
            "!node_modules/**".to_string(),
            "!**/node_modules".to_string(),
            "!**/node_modules/**".to_string(),
        ]
    );
    assert_eq!(globs[43], "!**/out/**");
}

#[test]
fn verbatim_prefixes_are_stripped_on_windows_only() {
    let show = |p: &str, windows| {
        String::from_utf8(display_root(b"root", Some(p.as_bytes()), windows)).unwrap()
    };
    assert_eq!(show("\\\\?\\C:\\code", true), "C:\\code");
    assert_eq!(show("\\\\?\\UNC\\host\\share", true), "\\\\host\\share");
    assert_eq!(show("\\\\?\\C:\\code", false), "\\\\?\\C:\\code");
    assert_eq!(show("C:\\code", true), "C:\\code");
    assert_eq!(display_root(b"root", None, false), b"root".to_vec());
}

/// Carries a publication through, answering each action.
fn publish(windows: bool, mut answer: impl FnMut(PublishAction) -> PublishEvent) -> Vec<PublishAction> {
    let mut p = Publication::start(windows);
    let mut done = vec![p.action];
    while p.action != PublishAction::Finish && p.action != PublishAction::GiveUp {
        p = next_action(p, answer(p.action));
        done.push(p.action);
    }
    done
}

#[test]
fn a_swap_that_works() {
    let done = publish(false, |a| match a {
        PublishAction::LookForIndex => PublishEvent::Found { exists: true },
        _ => PublishEvent::Done,
    });
    assert_eq!(
        done,
        vec![
            PublishAction::RemoveStale,
            PublishAction::LookForIndex,
            PublishAction::MoveAside,
            PublishAction::MoveIn,
            PublishAction::RemoveOld,
            PublishAction::Finish,
        ]
    );
}

#[test]
fn a_swap_that_fails_is_rolled_back() {
    let done = publish(false, |a| match a {
        PublishAction::LookForIndex => PublishEvent::Found { exists: true },
        PublishAction::MoveIn => PublishEvent::Failed { retryable: false },
        _ => PublishEvent::Done,
    });
    assert_eq!(
        &done[3..],
        &[
            PublishAction::MoveIn,
            PublishAction::RollBack { again: false },
            PublishAction::GiveUp,
        ]
    );
}

#[test]
fn nothing_is_moved_back_that_was_not_moved_aside() {
    let done = publish(false, |a| match a {
        PublishAction::LookForIndex => PublishEvent::Found { exists: false },
        PublishAction::MoveIn => PublishEvent::Failed { retryable: false },
        _ => PublishEvent::Done,
    });
    assert_eq!(
        &done[1..],
        &[
            PublishAction::LookForIndex,
            PublishAction::MoveIn,
            PublishAction::GiveUp,
        ]
    );
    let mut looks = 0;
    let done = publish(true, |a| match a {
        PublishAction::LookForIndex => {
            looks += 1;
            PublishEvent::Found { exists: looks == 1 }
        }
        PublishAction::MoveIn => PublishEvent::Failed { retryable: true },
        _ => PublishEvent::Done,
    });
    let rolled_back = done
        .iter()
        .filter(|a| matches!(a, PublishAction::RollBack { .. }))
        .count();
    assert_eq!(rolled_back, 1);
}

#[test]
fn windows_retries_with_growing_pauses() {
    let done = publish(true, |a| match a {
        PublishAction::LookForIndex => PublishEvent::Found { exists: true },
        PublishAction::MoveAside => PublishEvent::Failed { retryable: true },
        _ => PublishEvent::Done,
    });
    let waits: Vec<u64> = done
        .iter()
        .filter_map(|a| match a {
            PublishAction::Wait { ms } => Some(*ms),
            _ => None,
        })
        .collect();
    assert_eq!(waits, vec![1000, 2000, 4000, 8000, 8000]);
    assert_eq!(done.last(), Some(&PublishAction::GiveUp));
}

#[test]
fn retries_and_directories() {
    assert!(retryable(Some(5), true));
    assert!(retryable(Some(32), true));
    assert!(retryable(Some(33), true));
    assert!(!retryable(Some(5), false));
    assert!(!retryable(Some(2), true));
    assert!(!retryable(None, true));
    assert_eq!(publish_backoff(9), 8000);
    assert_eq!(transient_backoff(0), 50);
    for (attempt, ms) in [(0, 50), (1, 100), (2, 200), (3, 400)] {
        assert_eq!(
            retry_remove(attempt, RemoveOutcome::Failed { retryable: true }),
            Some(ms)
        );
    }
    assert_eq!(retry_remove(4, RemoveOutcome::Failed { retryable: true }), None);
    assert_eq!(retry_remove(0, RemoveOutcome::NotFound), None);
    assert_eq!(retry_remove(0, RemoveOutcome::Removed), None);
    assert_eq!(sibling_dir(b"/r/.rgx", ".tmp"), "/r/.rgx.tmp");
    assert_eq!(
        prepare_index_dir(b"/r/.rgx", true),
        (b"/r/.rgx.tmp".to_vec(), true)
    );
    assert_eq!(
        prepare_index_dir(b"/r/.rgx", false),
        (b"/r/.rgx".to_vec(), false)
    );
}

#[test]
fn files_are_shared_out_evenly() {
    assert_eq!(chunk_size(10, 4), 3);
    assert_eq!(chunk_size(8, 4), 2);
    assert_eq!(chunk_size(3, 8), 1);
    assert_eq!(chunk_size(0, 8), 1);
    assert_eq!(chunk_size(5, 0), 5);
}
