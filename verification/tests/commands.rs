use ce_crash::args::{command, has, plan_run, Command, RunError};
use ce_crash::paths::{joined, name_or_all, Platform};
use ce_crash::protocol::{
    ingest_request, provider_first, provider_found, query_reply, query_request, read_reply,
    ProviderStep, ReplyError,
};
use ce_crash::run::{
    after_emit, after_fallback, fallback_dir, fallback_home, fallback_path, seal_note, verdict,
    SealStep, Sealed, Verdict, FALLBACK_DIR,
};
use ce_crash::tail::{stderr_line, StderrTail};
use ce_crash::{basename, flag, positional, Capsule, CTL_TOPIC, SERVICE, STDERR_TAIL_LINES};

fn args(all: &[&str]) -> Vec<String> {
    all.iter().map(|s| s.to_string()).collect()
}

fn some(s: &str) -> Option<String> {
    Some(s.to_string())
}

#[test]
fn names_of_the_service() {
    assert_eq!(SERVICE, "ce.debug");
    assert_eq!(CTL_TOPIC, "ce.debug/ctl");
    assert_eq!(STDERR_TAIL_LINES, 100);
}

#[test]
fn subcommands() {
    assert_eq!(command(&args(&["ce-crash", "run"])), Command::Run);
    assert_eq!(command(&args(&["ce-crash", "list"])), Command::List);
    assert_eq!(command(&args(&["ce-crash", "why", "x"])), Command::Why);
    assert_eq!(command(&args(&["ce-crash", "runs"])), Command::Usage);
    assert_eq!(command(&args(&["ce-crash"])), Command::Usage);
    assert_eq!(command(&[]), Command::Usage);
}

#[test]
fn flags() {
    let a = args(&["ce-crash", "list", "--app", "x", "--cap", "t", "--app", "y", "--json"]);
    assert_eq!(flag(&a, "--app"), some("x"));
    assert_eq!(flag(&a, "--cap"), some("t"));
    assert_eq!(flag(&a, "--json"), None);
    assert_eq!(flag(&a, "--node"), None);
    assert!(has(&a, "--json"));
    assert!(!has(&a, "--node"));
}

#[test]
fn positional_arguments() {
    let a = args(&["ce-crash", "why", "--node", "n", "app", "--json", "second", "--cap"]);
    assert_eq!(positional(&a, 2), some("app"));
    assert_eq!(positional(&a, 3), some("second"));
    assert_eq!(positional(&a, 4), None);
    assert_eq!(positional(&a, 0), None);
    assert_eq!(positional(&a, 1), None);
    assert_eq!(positional(&args(&["ce-crash"]), 2), None);
    assert_eq!(positional(&args(&["ce-crash", "why", "--", "x", "y"]), 2), some("y"));
}

#[test]
fn base_names() {
    for path in [
        "python3", "/usr/bin/python3", "./my-service", "a/b/", "a//b//", "a/.", "a/./", "..",
        "a/..", "../x", "/", "//", ".", "./", "", "a/.b", "...", "/.", "dir.d/é",
    ] {
        let expected = match std::path::Path::new(path).file_name() {
            Some(name) => name.to_string_lossy().into_owned(),
            None => path.to_string(),
        };
        assert_eq!(basename(path, Platform::Unix), expected);
        assert_eq!(basename(path, Platform::Native), expected);
    }
    for platform in [Platform::Unix, Platform::Native] {
        assert_eq!(basename("/usr/bin/python3", platform), "python3");
        assert_eq!(basename("./my-service", platform), "my-service");
        assert_eq!(basename("a/b/./", platform), "b");
        assert_eq!(basename("a/..", platform), "a/..");
        assert_eq!(basename("/", platform), "/");
        assert_eq!(basename(".", platform), ".");
    }
    assert_eq!(basename("a:b\\c", Platform::Unix), "a:b\\c");
    assert_eq!(name_or_all("x/y", some("y")), "y");
    assert_eq!(name_or_all("x/..", None), "x/..");
}

#[test]
fn base_names_of_very_long_paths() {
    let path = format!("bin/x{}", "/.".repeat(200_000));
    assert_eq!(basename(&path, Platform::Unix), "x");
    let slashes = "/".repeat(400_000);
    assert_eq!(basename(&slashes, Platform::Unix), slashes);
}

#[test]
fn files_in_directories() {
    for (dir, name) in [("/home/u", "x/y"), ("/", "x"), ("", "x"), ("a/", "x"), ("a", ""), ("c:", "x")] {
        let expected = std::path::Path::new(dir).join(name).display().to_string();
        assert_eq!(joined(dir, name, Platform::Unix), expected);
        assert_eq!(joined(dir, name, Platform::Native), expected);
    }
    assert_eq!(joined("/home/u", "x", Platform::Unix), "/home/u/x");
    assert_eq!(joined("a", "", Platform::Native), "a/");
}

#[test]
fn run_plans() {
    let a = args(&["ce-crash", "run", "--app", "board", "--", "python3", "s.py", "--", "--app", "x"]);
    let plan = plan_run(&a, Platform::Unix).ok().unwrap();
    assert_eq!(plan.app, "board");
    assert_eq!(plan.cmd, args(&["python3", "s.py", "--", "--app", "x"]));
    let plan = plan_run(&args(&["ce-crash", "run", "--", "./my-service", "--app", "z"]), Platform::Unix).ok().unwrap();
    assert_eq!(plan.app, "my-service");
    assert_eq!(plan.cmd, args(&["./my-service", "--app", "z"]));
    assert_eq!(plan.provider, None);
    assert_eq!(plan.cap, None);
    let a = args(&["ce-crash", "run", "--cap", "t", "--", "x"]);
    assert_eq!(plan_run(&a, Platform::Unix).ok().unwrap().cap, some("t"));
    let a = args(&["ce-crash", "run", "--", "x", "--cap", "u"]);
    assert_eq!(plan_run(&a, Platform::Unix).ok().unwrap().cap, some("u"));
    let a = args(&["ce-crash", "run", "--", "/usr/bin/python3"]);
    assert_eq!(plan_run(&a, Platform::Native).ok().unwrap().app, "python3");
    let a = args(&["ce-crash", "run", "--provider", "n0de", "--", "x", "--provider", "other"]);
    assert_eq!(plan_run(&a, Platform::Unix).ok().unwrap().provider, some("n0de"));
    let a = args(&["ce-crash", "run", "--", "x", "--provider", "other"]);
    assert_eq!(plan_run(&a, Platform::Unix).ok().unwrap().provider, None);
    // A flag without a value before the separator has none behind it.
    let plan = plan_run(&args(&["ce-crash", "run", "--app", "--", "bin/x"]), Platform::Unix).ok().unwrap();
    assert_eq!(plan.app, "x");
    assert_eq!(plan_run(&args(&["ce-crash", "run", "x"]), Platform::Unix).err(), Some(RunError::NoSeparator));
    assert_eq!(plan_run(&args(&["ce-crash", "run", "--"]), Platform::Unix).err(), Some(RunError::NoCommand));
}

#[test]
fn verdicts() {
    assert_eq!(verdict(true, Some(0), None), Verdict::Fine);
    assert_eq!(verdict(false, Some(3), None), Verdict::Crashed(3));
    assert_eq!(verdict(false, None, Some(9)), Verdict::Crashed(137));
    assert_eq!(verdict(false, Some(3), Some(9)), Verdict::Crashed(3));
    assert_eq!(verdict(false, None, None), Verdict::Crashed(128));
}

#[test]
fn notes_on_the_capsule() {
    assert_eq!(
        seal_note(&Sealed::Indexed("c".to_string()), "a"),
        "ce-crash: capsule c indexed for a"
    );
    assert_eq!(
        seal_note(&Sealed::Kept("down".to_string(), "/x".to_string()), "a"),
        "ce-crash: mesh unreachable (down); capsule written to /x"
    );
    assert_eq!(
        seal_note(&Sealed::Lost("down".to_string(), "full".to_string()), "a"),
        "ce-crash: capsule lost (down; fallback failed: full)"
    );
}

#[test]
fn fallback_place() {
    assert_eq!(FALLBACK_DIR, ".local/share/ce/ce-crash");
    assert_eq!(fallback_home(some("/home/u")), "/home/u");
    assert_eq!(fallback_home(None), ".");
    assert_eq!(fallback_dir("/home/u", Platform::Unix), "/home/u/.local/share/ce/ce-crash");
    assert_eq!(
        fallback_path("/home/u", "board", 1784900000000, Platform::Unix),
        "/home/u/.local/share/ce/ce-crash/board-1784900000000.json"
    );
    assert_eq!(
        fallback_path("/home/u", "board", 7, Platform::Native),
        "/home/u/.local/share/ce/ce-crash/board-7.json"
    );
    // An app cannot lead out of the directory by a slash at the start of its name.
    assert_eq!(
        fallback_path("/home/u", "/etc/x", 7, Platform::Unix),
        "/home/u/.local/share/ce/ce-crash//etc/x-7.json"
    );
    assert_eq!(fallback_path("/", "a", 0, Platform::Unix), "/.local/share/ce/ce-crash/a-0.json");
    assert_eq!(fallback_path("", "a", 0, Platform::Unix), ".local/share/ce/ce-crash/a-0.json");
}

#[test]
fn the_fallback_follows_a_failed_emit() {
    assert!(matches!(
        after_emit(Ok("c".to_string())),
        SealStep::Done(Sealed::Indexed(cid)) if cid == "c"
    ));
    assert!(matches!(
        after_emit(Err("down".to_string())),
        SealStep::WriteFallback(reason) if reason == "down"
    ));
    assert!(matches!(
        after_fallback("down".to_string(), Ok("/x".to_string())),
        Sealed::Kept(reason, path) if reason == "down" && path == "/x"
    ));
    assert!(matches!(
        after_fallback("down".to_string(), Err("full".to_string())),
        Sealed::Lost(reason, second) if reason == "down" && second == "full"
    ));
}

#[test]
fn lines_of_stderr() {
    assert_eq!(stderr_line(b"boom\n"), "boom");
    assert_eq!(stderr_line(b"boom\r\n"), "boom");
    assert_eq!(stderr_line(b"boom\r"), "boom\r");
    assert_eq!(stderr_line(b"boom"), "boom");
    assert_eq!(stderr_line(b"\n"), "");
    assert_eq!(stderr_line("é\n".as_bytes()), "é");
    assert_eq!(stderr_line(b"a\xffb\n"), "a\u{fffd}b");
}

#[test]
fn the_last_lines_of_stderr_are_kept() {
    let mut tail = StderrTail::new();
    for i in 0..250 {
        tail.push(format!("line {}", i));
    }
    let lines = tail.into_lines();
    assert_eq!(lines.len(), 100);
    assert_eq!(lines[0], "line 150");
    assert_eq!(lines[99], "line 249");
    let mut short = StderrTail::new();
    short.push("a".to_string());
    short.push("b".to_string());
    assert_eq!(short.into_lines(), args(&["a", "b"]));
    assert!(StderrTail::new().into_lines().is_empty());
}

#[test]
fn query_requests() {
    let body = query_request(Some("a"), 1000, some("t"), some("e")).unwrap();
    assert_eq!(
        String::from_utf8(body).unwrap(),
        "{\"args\":{\"app\":\"a\",\"level\":\"error\",\"limit\":1000},\"cap\":\"t\",\"op\":\"query\"}"
    );
    let body = query_request(None, 500, None, some("e")).unwrap();
    assert_eq!(
        String::from_utf8(body).unwrap(),
        "{\"args\":{\"app\":null,\"level\":\"error\",\"limit\":500},\"cap\":\"e\",\"op\":\"query\"}"
    );
    let body = query_request(None, 0, None, None).unwrap();
    assert_eq!(
        String::from_utf8(body).unwrap(),
        "{\"args\":{\"app\":null,\"level\":\"error\",\"limit\":0},\"op\":\"query\"}"
    );
}

#[test]
fn ingest_requests() {
    let mut c = Capsule::default();
    c.app = "a".to_string();
    c.exit_kind = "exit".to_string();
    c.exit_code = Some(-1);
    c.msg = "m\"\n".to_string();
    c.ts_ms = 5;
    let body = ingest_request(&c, "cid", None, None).unwrap();
    assert_eq!(
        String::from_utf8(body).unwrap(),
        "{\"args\":{\"events\":[{\"app\":\"a\",\"fields\":{\"crash_cid\":\"cid\",\"exit_code\":-1,\
         \"exit_kind\":\"exit\"},\"level\":\"error\",\"msg\":\"m\\\"\\n\",\"node\":\"\",\
         \"ts_ms\":5}]},\"op\":\"ingest\"}"
    );
}

#[test]
fn replies_with_events() {
    let raw = b"{\"result\":{\"events\":[{\"app\":\"a\"},3,null]}}";
    let events = query_reply(raw).ok().unwrap();
    assert_eq!(events.len(), 3);
    assert_eq!(events[0]["app"], "a");
    assert_eq!(events[1], 3);
    assert!(events[2].is_null());
    assert!(query_reply(b"{}").ok().unwrap().is_empty());
    assert!(query_reply(b"{\"result\":{\"events\":{}}}").ok().unwrap().is_empty());
    assert!(query_reply(b"[1]").ok().unwrap().is_empty());
}

#[test]
fn refused_requests() {
    match query_reply(b"{\"error\":\"no cap\",\"result\":{\"events\":[1]}}") {
        Err(ReplyError::Refused(reason)) => assert_eq!(reason, "no cap"),
        _ => panic!("a refusal was expected"),
    }
    match read_reply(b"{\"error\":\"denied\"}") {
        Err(ReplyError::Refused(reason)) => assert_eq!(reason, "denied"),
        _ => panic!("a refusal was expected"),
    }
    // An error that is no text is none.
    assert!(read_reply(b"{\"error\":7}").is_ok());
    assert!(read_reply(b"{\"error\":null}").is_ok());
}

#[test]
fn malformed_replies() {
    assert!(matches!(query_reply(b"{"), Err(ReplyError::Malformed(_))));
    assert!(matches!(read_reply(b""), Err(ReplyError::Malformed(_))));
    assert!(matches!(read_reply(b"{} x"), Err(ReplyError::Malformed(_))));
}

#[test]
fn providers() {
    assert!(matches!(provider_first(some("p"), some("q")), ProviderStep::Use(n) if n == "p"));
    assert!(matches!(provider_first(some(""), some("q")), ProviderStep::Use(n) if n == ""));
    assert!(matches!(provider_first(None, some("q")), ProviderStep::Use(n) if n == "q"));
    assert!(matches!(provider_first(None, some("")), ProviderStep::FindService));
    assert!(matches!(provider_first(None, None), ProviderStep::FindService));
    assert!(matches!(provider_found(Some(args(&["a", "b"]))), ProviderStep::Use(n) if n == "a"));
    assert!(matches!(provider_found(Some(vec![])), ProviderStep::LocalNode));
    assert!(matches!(provider_found(None), ProviderStep::LocalNode));
}
