use ce_crash::capsule::status_line;
use ce_crash::{build_run_capsule, index_event, Capsule, Host};
use serde_json::Value;

fn strings(all: &[&str]) -> Vec<String> {
    all.iter().map(|s| s.to_string()).collect()
}

fn host() -> Host {
    Host {
        os: "linux".to_string(),
        arch: "x86_64".to_string(),
        cwd: Some("/srv/app".to_string()),
        env: vec![
            ("PATH".to_string(), "/bin:/usr/bin".to_string()),
            ("HOME".to_string(), "/home/a=b".to_string()),
            ("LANG".to_string(), "C".to_string()),
        ],
    }
}

#[test]
fn run_capsule_msg_is_last_stderr_line() {
    let tail = vec![
        "Traceback (most recent call last):".to_string(),
        "  File \"<string>\", line 1, in <module>".to_string(),
        "RuntimeError: demo crash: sensor voltage out of range".to_string(),
        "".to_string(),
    ];
    let c = build_run_capsule(
        "demo",
        &["python3".into(), "-c".into()],
        Some(1),
        None,
        tail,
        100,
        5100,
        &host(),
    );
    assert_eq!(c.msg, "RuntimeError: demo crash: sensor voltage out of range");
    assert_eq!(c.exit_kind, "exit");
    assert_eq!(c.exit_code, Some(1));
    assert_eq!(c.signal, None);
    assert_eq!(c.start_ts_ms, Some(100));
    assert!(!c.env_keys.is_empty());
    assert!(!c.platform.is_empty());
    // env: names only, no '=' (a value separator) may sneak into keys
    assert!(c.env_keys.iter().all(|k| !k.contains('=')));
}

#[test]
fn run_capsule_signal_and_empty_stderr() {
    let c = build_run_capsule("demo", &["sleeper".into()], None, Some(9), vec![], 0, 1, &host());
    assert_eq!(c.exit_kind, "signal");
    assert_eq!(c.msg, "killed by signal 9");
    let c2 =
        build_run_capsule("demo", &["x".into()], Some(2), None, vec!["  ".into()], 0, 1, &host());
    assert_eq!(c2.msg, "exit code 2");
}

#[test]
fn index_event_carries_cid_and_stderr_stack() {
    let c = build_run_capsule(
        "demo",
        &["x".into()],
        Some(1),
        None,
        vec!["a".into(), "boom".into()],
        0,
        7,
        &host(),
    );
    let e = index_event(&c, "cid123");
    assert_eq!(e["level"], "error");
    assert_eq!(e["fields"]["crash_cid"], "cid123");
    assert_eq!(e["fields"]["exit_code"], 1);
    assert_eq!(e["msg"], "boom");
    assert_eq!(e["stack"], "a\nboom");
    assert_eq!(e["ts_ms"], 7);
}

#[test]
fn run_capsule_holds_what_was_observed() {
    let c = build_run_capsule(
        "svc",
        &strings(&["./svc", "--port", "9000"]),
        None,
        None,
        strings(&["\t \u{a0}", ""]),
        3,
        4,
        &host(),
    );
    assert_eq!(c.app, "svc");
    assert_eq!(c.node, "");
    assert_eq!(c.ts_ms, 4);
    assert_eq!(c.exit_kind, "exit");
    assert_eq!(c.msg, "abnormal exit");
    assert_eq!(c.argv, strings(&["./svc", "--port", "9000"]));
    assert_eq!(c.stderr_tail, strings(&["\t \u{a0}", ""]));
    assert_eq!(c.platform, "linux-x86_64");
    assert_eq!(c.cwd, "/srv/app");
    assert_eq!(c.env_keys, strings(&["HOME", "LANG", "PATH"]));
    assert_eq!(c.exc_type, None);
    assert_eq!(c.stack, None);
    assert_eq!(c.python, None);
    assert!(c.recent.is_empty());
}

#[test]
fn run_capsule_without_a_working_directory() {
    let mut h = host();
    h.cwd = None;
    let c = build_run_capsule("a", &[], Some(1), None, vec![], 0, 0, &h);
    assert_eq!(c.cwd, "");
}

#[test]
fn values_of_the_environment_leave_no_trace() {
    let mut other = host();
    other.env[0].1 = "something else".to_string();
    other.env[2].1 = String::new();
    let a = build_run_capsule("a", &[], Some(1), None, vec![], 0, 0, &host());
    let b = build_run_capsule("a", &[], Some(1), None, vec![], 0, 0, &other);
    assert_eq!(a.env_keys, b.env_keys);
}

#[test]
fn message_is_the_cause_and_not_the_code() {
    let tail = || strings(&["note", "  panic: out of range  ", " "]);
    let a = build_run_capsule("a", &[], Some(1), None, tail(), 0, 0, &host());
    let b = build_run_capsule("a", &[], None, Some(6), tail(), 0, 0, &host());
    assert_eq!(a.msg, "panic: out of range");
    assert_eq!(a.msg, b.msg);
}

#[test]
fn status_lines() {
    assert_eq!(status_line(Some(9), Some(1), "x"), "killed by signal 9");
    assert_eq!(status_line(None, Some(-1), "x"), "exit code -1");
    assert_eq!(status_line(None, Some(i32::MIN), "x"), "exit code -2147483648");
    assert_eq!(status_line(None, Some(i32::MAX), "x"), "exit code 2147483647");
    assert_eq!(status_line(None, None, "exception"), "exception");
}

#[test]
fn default_capsule_is_empty() {
    let c = Capsule::default();
    assert_eq!(c.app, "");
    assert_eq!(c.ts_ms, 0);
    assert!(c.argv.is_empty() && c.env_keys.is_empty() && c.stderr_tail.is_empty());
    assert_eq!(c.start_ts_ms, None);
}

#[test]
fn index_event_of_a_hook_capsule() {
    let mut c = Capsule::default();
    c.app = "py".to_string();
    c.exit_kind = "exception".to_string();
    c.signal = Some(-3);
    c.exc_type = Some("ValueError".to_string());
    c.msg = "m".to_string();
    c.stack = Some("s1\ns2".to_string());
    c.stderr_tail = strings(&["not this"]);
    c.ts_ms = u64::MAX;
    let e = index_event(&c, "id");
    assert_eq!(e["fields"]["signal"], -3);
    assert_eq!(e["fields"]["exc_type"], "ValueError");
    assert_eq!(e["fields"]["exit_kind"], "exception");
    assert_eq!(e["fields"]["exit_code"], Value::Null);
    assert_eq!(e["fields"].as_object().unwrap().len(), 4);
    assert_eq!(e["stack"], "s1\ns2");
    assert_eq!(e["app"], "py");
    assert_eq!(e["node"], "");
    assert_eq!(e["ts_ms"].as_u64(), Some(u64::MAX));
    assert_eq!(e.as_object().unwrap().len(), 7);
}

#[test]
fn index_event_without_evidence_has_no_stack() {
    let e = index_event(&Capsule::default(), "id");
    assert!(e.get("stack").is_none());
    assert_eq!(e.as_object().unwrap().len(), 6);
}

#[test]
fn message_of_a_run_is_one_line() {
    for tail in [strings(&["one", "two  "]), strings(&[" ", ""]), vec![]] {
        for (code, signal) in [(Some(-7), None), (None, Some(15)), (None, None)] {
            let c = build_run_capsule("a", &[], code, signal, tail.clone(), 0, 0, &host());
            assert_eq!(c.msg.lines().count(), 1);
            assert!(!c.msg.contains('\n'));
        }
    }
}

#[test]
fn every_name_is_recorded() {
    let mut h = host();
    h.env.push(("PATH".to_string(), "again".to_string()));
    h.env.push(("_".to_string(), "x".to_string()));
    let c = build_run_capsule("a", &[], Some(1), None, vec![], 0, 0, &h);
    assert_eq!(c.env_keys, strings(&["HOME", "LANG", "PATH", "PATH", "_"]));
}
