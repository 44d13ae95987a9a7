use ce_crash::render::{render_event, render_recent};
use ce_crash::{build_run_capsule, render_capsule, Capsule, Host};
use serde_json::Value;

fn host() -> Host {
    Host {
        os: "macos".to_string(),
        arch: "aarch64".to_string(),
        cwd: Some("/tmp".to_string()),
        env: vec![("HOME".to_string(), "/root".to_string())],
    }
}

fn event(entries: Vec<(&str, Value)>) -> Value {
    let mut map = serde_json::Map::new();
    for (k, v) in entries {
        map.insert(k.to_string(), v);
    }
    Value::Object(map)
}

fn python_capsule() -> Capsule {
    let mut c = Capsule::default();
    c.app = "py-app".to_string();
    c.node = "".to_string();
    c.ts_ms = 1_753_358_400_000;
    c.exit_kind = "exception".to_string();
    c.exc_type = Some("ValueError".to_string());
    c.msg = "ValueError: kaboom".to_string();
    c.stack = Some("Traceback...\nValueError: kaboom".to_string());
    c.argv = vec!["app.py".to_string()];
    c.python = Some("3.12.0 (main)".to_string());
    c.platform = "macOS-15".to_string();
    c.cwd = "/tmp".to_string();
    c.env_keys = vec!["HOME".to_string(), "PATH".to_string()];
    c.recent = vec![event(vec![
        ("ts_ms", Value::from(1_753_358_399_000u64)),
        ("level", Value::from("info")),
        ("msg", Value::from("starting")),
    ])];
    c
}

#[test]
fn render_python_shaped_capsule() {
    let c = python_capsule();
    let out = render_capsule(&c, "cidX", "abcd1234");
    assert!(out.contains("what:     ValueError — ValueError: kaboom"));
    assert!(out.contains("node:     abcd1234"));
    assert!(out.contains("stack:"));
    assert!(out.contains("recent events (1 buffered before death):"));
    assert!(out.contains("starting"));
    assert!(out.contains("capsule:  cidX"));
    assert!(out.contains("2 variables (names recorded, values never)"));
}

#[test]
fn render_run_shaped_capsule() {
    let c = build_run_capsule(
        "crash-demo",
        &["python3".into(), "-c".into(), "raise".into()],
        Some(1),
        None,
        vec!["RuntimeError: demo".into()],
        1_000,
        3_000,
        &host(),
    );
    let out = render_capsule(&c, "cidY", "");
    assert!(out.contains("(exit code 1)"));
    assert!(out.contains("stderr tail (last 1 lines):"));
    assert!(out.contains("RuntimeError: demo"));
    assert!(out.contains("lifetime: 2.0s"));
}

#[test]
fn whole_report_of_a_hook_capsule() {
    assert_eq!(
        render_capsule(&python_capsule(), "cidX", "abcd1234"),
        "py-app  2025-07-24 12:00:00 UTC  (exception)\n\
         what:     ValueError — ValueError: kaboom\n\
         node:     abcd1234\n\
         cwd:      /tmp\n\
         argv:     app.py\n\
         platform: macOS-15\n\
         python:   3.12.0 (main)\n\
         stack:\n\
         \x20 Traceback...\n\
         \x20 ValueError: kaboom\n\
         recent events (1 buffered before death):\n\
         \x20 11:59:59  info  starting\n\
         env:      2 variables (names recorded, values never)\n\
         capsule:  cidX\n"
    );
}

#[test]
fn whole_report_of_a_run_capsule() {
    let c = build_run_capsule(
        "demo",
        &["a".into(), "b c".into()],
        None,
        Some(11),
        vec!["one".into(), "two".into()],
        500,
        250,
        &host(),
    );
    assert_eq!(
        render_capsule(&c, "id", ""),
        "demo  1970-01-01 00:00:00 UTC  (killed by signal 11)\n\
         what:     two\n\
         cwd:      /tmp\n\
         argv:     a b c\n\
         platform: macos-aarch64\n\
         lifetime: 0.0s (started 1970-01-01 00:00:00 UTC)\n\
         stderr tail (last 2 lines):\n\
         \x20 one\n\
         \x20 two\n\
         env:      1 variables (names recorded, values never)\n\
         capsule:  id\n"
    );
}

#[test]
fn report_of_an_empty_capsule() {
    assert_eq!(
        render_capsule(&Capsule::default(), "", ""),
        "  1970-01-01 00:00:00 UTC  ()\nwhat:     \n\
         env:      0 variables (names recorded, values never)\ncapsule:  \n"
    );
}

#[test]
fn the_given_node_counts_for_more() {
    let mut c = Capsule::default();
    c.node = "inner".to_string();
    assert!(render_capsule(&c, "", "").contains("\nnode:     inner\n"));
    assert!(render_capsule(&c, "", "outer").contains("\nnode:     outer\n"));
}

#[test]
fn only_the_first_line_of_the_interpreter_is_shown() {
    let mut c = Capsule::default();
    c.python = Some("3.12\n[GCC]".to_string());
    assert!(render_capsule(&c, "", "").contains("\npython:   3.12\nenv:"));
    c.python = Some(String::new());
    assert!(render_capsule(&c, "", "").contains("\npython:   \nenv:"));
}

#[test]
fn an_empty_argument_still_has_its_line() {
    let mut c = Capsule::default();
    c.argv = vec![String::new()];
    assert!(render_capsule(&c, "", "").contains("\nargv:     \n"));
}

#[test]
fn buffered_events() {
    assert_eq!(render_event(1_000, "warn", "m"), "00:00:01  warn  m");
    assert_eq!(render_event(0, "critical", ""), "00:00:00  critical ");
    assert_eq!(render_recent(&Value::Null), "00:00:00  ?     ");
    let e = event(vec![
        ("ts_ms", Value::from(86_399_999u64)),
        ("level", Value::from("é")),
        ("msg", Value::from("x")),
    ]);
    assert_eq!(render_recent(&e), format!("23:59:59  {:<5} x", "é"));
}
