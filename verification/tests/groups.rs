use ce_crash::event::{read_crash, Crash};
use ce_crash::group::group_events;
use ce_crash::report::{event_stack, find_crash, is_shortenable, render_group, render_index_only, render_list, render_why};
use ce_crash::{fingerprint, group_crashes, index_event, render_capsule, Capsule, CrashGroup};
use serde_json::Value;

fn object(entries: Vec<(&str, Value)>) -> Value {
    let mut map = serde_json::Map::new();
    for (k, v) in entries {
        map.insert(k.to_string(), v);
    }
    Value::Object(map)
}

fn crash_event(app: &str, msg: &str, ts: u64, cid: &str) -> Value {
    object(vec![
        ("ts_ms", Value::from(ts)),
        ("app", Value::from(app)),
        ("node", Value::from("n0de")),
        ("level", Value::from("error")),
        ("msg", Value::from(msg)),
        (
            "fields",
            object(vec![("crash_cid", Value::from(cid)), ("exit_kind", Value::from("exit"))]),
        ),
    ])
}

fn other_event() -> Value {
    object(vec![
        ("ts_ms", Value::from(9u64)),
        ("app", Value::from("a")),
        ("level", Value::from("error")),
        ("msg", Value::from("no cid")),
        ("fields", object(vec![])),
    ])
}

fn crash(app: &str, msg: &str, ts_ms: u64, cid: &str, node: &str) -> Crash {
    Crash {
        cid: cid.to_string(),
        app: app.to_string(),
        msg: msg.to_string(),
        ts_ms,
        node: node.to_string(),
    }
}

fn group(app: &str, count: u64, ts: u64, cid: &str, msg: &str) -> CrashGroup {
    CrashGroup {
        fingerprint: fingerprint(app, msg),
        app: app.to_string(),
        count,
        last_ts_ms: ts,
        last_cid: cid.to_string(),
        last_node: "n".to_string(),
        sample_msg: msg.to_string(),
    }
}

#[test]
fn grouping_filters_and_fingerprints() {
    let events = vec![
        crash_event("a", "boom at x", 5, "cid-new"),
        crash_event("a", "boom at x", 1, "cid-old"),
        crash_event("a", "other", 3, "cid-o"),
        crash_event("b", "boom at x", 4, "cid-b"), // same msg, different app = different group
        other_event(),
    ];
    let groups = group_crashes(&events);
    assert_eq!(groups.len(), 3); // the no-cid error is ignored
    let boom_a = groups.iter().find(|g| g.app == "a" && g.sample_msg.contains("boom")).unwrap();
    assert_eq!(boom_a.count, 2);
    assert_eq!(boom_a.last_ts_ms, 5);
    assert_eq!(boom_a.last_cid, "cid-new");
    assert_eq!(groups[0].last_ts_ms, 5); // newest group first
}

#[test]
fn fingerprint_is_app_and_start_of_first_line() {
    assert_eq!(fingerprint("a", "one\ntwo"), "a:one");
    assert_eq!(fingerprint("a", "one\r\ntwo"), "a:one");
    assert_eq!(fingerprint("a", ""), "a:");
    assert_eq!(fingerprint("", "\nx"), ":");
    let long = "é".repeat(130);
    assert_eq!(fingerprint("a", &long), format!("a:{}", "é".repeat(120)));
    let exact = "x".repeat(120);
    assert_eq!(fingerprint("a", &exact), format!("a:{}", exact));
}

#[test]
fn colons_in_app_names_can_hide_a_difference() {
    assert_eq!(fingerprint("a:b", "c"), fingerprint("a", "b:c"));
    assert_ne!(fingerprint("a", "c"), fingerprint("b", "c"));
}

#[test]
fn later_of_equal_times_is_shown() {
    let groups = group_events(&[
        crash("a", "m one", 7, "c1", "n1"),
        crash("a", "m one", 7, "c2", "n2"),
        crash("a", "m one", 6, "c3", "n3"),
    ]);
    assert_eq!(groups.len(), 1);
    assert_eq!(groups[0].count, 3);
    assert_eq!(groups[0].last_cid, "c2");
    assert_eq!(groups[0].last_node, "n2");
    assert_eq!(groups[0].last_ts_ms, 7);
}

#[test]
fn group_shows_the_whole_message_of_its_latest_crash() {
    let groups = group_events(&[
        crash("a", "boom\nfirst", 1, "c1", "n1"),
        crash("a", "boom\nsecond", 2, "c2", "n2"),
    ]);
    assert_eq!(groups.len(), 1);
    assert_eq!(groups[0].sample_msg, "boom\nsecond");
    assert_eq!(groups[0].fingerprint, "a:boom");
}

#[test]
fn groups_of_one_time_keep_the_order_of_their_first_crash() {
    let groups = group_events(&[
        crash("x", "m", 5, "c", ""),
        crash("y", "m", 9, "c", ""),
        crash("z", "m", 5, "c", ""),
        crash("w", "m", 5, "c", ""),
        crash("y", "m", 1, "c", ""),
    ]);
    let apps: Vec<&str> = groups.iter().map(|g| g.app.as_str()).collect();
    assert_eq!(apps, vec!["y", "x", "z", "w"]);
    assert_eq!(groups.iter().map(|g| g.count).sum::<u64>(), 5);
}

#[test]
fn no_events_no_groups() {
    assert!(group_crashes(&[]).is_empty());
    assert!(group_crashes(&[Value::Null, Value::from("x"), other_event()]).is_empty());
}

#[test]
fn other_events_make_no_difference_to_the_groups() {
    let a = crash_event("a", "m", 1, "c1");
    let b = crash_event("b", "m", 2, "c2");
    let with = group_crashes(&[a.clone(), other_event(), b.clone()]);
    let without = group_crashes(&[a, b]);
    assert_eq!(with.len(), without.len());
    for (x, y) in with.iter().zip(without.iter()) {
        assert_eq!(x.fingerprint, y.fingerprint);
        assert_eq!(x.last_cid, y.last_cid);
    }
}

#[test]
fn the_order_of_arrival_makes_no_difference_to_the_groups() {
    let events = [
        crash_event("a", "boom\nx", 5, "c1"),
        crash_event("b", "boom", 4, "c2"),
        other_event(),
        crash_event("a", "boom\ny", 9, "c3"),
    ];
    let expected = vec![("a:boom", "a", 2, 9, "c3", "boom\ny"), ("b:boom", "b", 1, 4, "c2", "boom")];
    for i in 0..4 {
        for j in 0..4 {
            for k in 0..4 {
                if i == j || j == k || i == k {
                    continue;
                }
                let order = [i, j, k, 6 - i - j - k];
                let arrived: Vec<Value> = order.iter().map(|&at| events[at].clone()).collect();
                let groups = group_crashes(&arrived);
                let found: Vec<_> = groups
                    .iter()
                    .map(|g| {
                        (
                            g.fingerprint.as_str(),
                            g.app.as_str(),
                            g.count,
                            g.last_ts_ms,
                            g.last_cid.as_str(),
                            g.sample_msg.as_str(),
                        )
                    })
                    .collect();
                assert_eq!(found, expected);
            }
        }
    }
}

#[test]
fn colons_let_the_order_of_arrival_show() {
    let x = crash("a:b", "c", 1, "c1", "");
    let y = crash("a", "b:c", 2, "c2", "");
    let xy = group_events(&[crash("a:b", "c", 1, "c1", ""), crash("a", "b:c", 2, "c2", "")]);
    let yx = group_events(&[y, x]);
    assert_eq!((xy.len(), yx.len()), (1, 1));
    assert_eq!(xy[0].app, "a:b");
    assert_eq!(yx[0].app, "a");
}

#[test]
fn what_an_event_lacks_is_empty() {
    let e = object(vec![("fields", object(vec![("crash_cid", Value::from("c"))]))]);
    let crash = read_crash(&e).unwrap();
    assert_eq!(crash.cid, "c");
    assert_eq!((crash.app.as_str(), crash.msg.as_str(), crash.node.as_str()), ("", "", ""));
    assert_eq!(crash.ts_ms, 0);
    let odd = object(vec![
        ("fields", object(vec![("crash_cid", Value::from("c"))])),
        ("ts_ms", Value::from(-5)),
        ("app", Value::from(3)),
    ]);
    let crash = read_crash(&odd).unwrap();
    assert_eq!(crash.ts_ms, 0);
    assert_eq!(crash.app, "");
    let real = object(vec![
        ("fields", object(vec![("crash_cid", Value::from("c"))])),
        ("ts_ms", Value::from(5.0)),
    ]);
    assert_eq!(read_crash(&real).unwrap().ts_ms, 0);
    assert!(read_crash(&object(vec![("fields", object(vec![("crash_cid", Value::from(1))]))]))
        .is_none());
}

#[test]
fn a_sealed_crash_is_listed_as_one_group() {
    let mut c = Capsule::default();
    c.app = "svc".to_string();
    c.msg = "boom\nmore".to_string();
    c.ts_ms = 42;
    let groups = group_crashes(&[index_event(&c, "the-cid")]);
    assert_eq!(groups.len(), 1);
    assert_eq!(groups[0].fingerprint, "svc:boom");
    assert_eq!(groups[0].app, "svc");
    assert_eq!(groups[0].count, 1);
    assert_eq!(groups[0].last_ts_ms, 42);
    assert_eq!(groups[0].last_cid, "the-cid");
    assert_eq!(groups[0].last_node, "");
    assert_eq!(groups[0].sample_msg, "boom\nmore");
}

#[test]
fn list_of_no_groups() {
    assert_eq!(render_list(&[]), "no crashes recorded\n");
}

#[test]
fn list_rows() {
    let a = group("board-sensor", 3, 3_723_000, "0123456789abcdef", "boom\nmore");
    assert_eq!(
        render_group(&a),
        format!(
            "{:>4}x  last {}  {:<16} {}  capsule {}",
            3, "01:02:03", "board-sensor", "boom", "0123456789ab"
        )
    );
    let b = group("an-app-with-a-long-name", 12345, 0, "ab", "");
    assert_eq!(render_group(&b), "12345x  last 00:00:00  an-app-with-a-long-name   capsule ab");
    let both = render_list(&[a.clone(), b.clone()]);
    assert_eq!(both, format!("{}\n{}\n", render_group(&a), render_group(&b)));
}

#[test]
fn ids_are_shortened_between_characters_only() {
    assert!(is_shortenable(""));
    assert!(is_shortenable("0123456789ab"));
    assert!(is_shortenable("0123456789abc"));
    assert!(is_shortenable("ééé"));
    assert!(is_shortenable("éééééééé"));
    assert!(!is_shortenable("0éééééééé"));
    let g = group("a", 1, 0, "éééééééé", "m");
    assert!(render_group(&g).ends_with("  capsule éééééé"));
}

#[test]
fn why_takes_the_first_crash_of_the_node() {
    let mut far = crash_event("a", "m", 3, "c-far");
    far["node"] = Value::from("beef01");
    let events = vec![other_event(), crash_event("a", "m", 9, "c-near"), far];
    assert_eq!(find_crash(&events, None), Some(1));
    assert_eq!(find_crash(&events, Some("")), Some(1));
    assert_eq!(find_crash(&events, Some("beef")), Some(2));
    assert_eq!(find_crash(&events, Some("beef01")), Some(2));
    assert_eq!(find_crash(&events, Some("beef012")), None);
    assert_eq!(find_crash(&events[..1], None), None);
}

#[test]
fn index_event_alone_still_answers() {
    let mut e = crash_event("a", "boom", 1_784_851_200_000, "cid9");
    assert_eq!(event_stack(&e), None);
    let crash = read_crash(&e).unwrap();
    let head = "a  2026-07-24 00:00:00 UTC  (capsule blob cid9 not fetchable — index event only)\n\
                what:  boom\nnode:  n0de\n";
    assert_eq!(render_index_only("a", &crash, &None), head);
    e["stack"] = Value::from("l1\nl2\n");
    let stack = event_stack(&e);
    assert_eq!(stack, Some("l1\nl2\n".to_string()));
    assert_eq!(
        render_index_only("a", &crash, &stack),
        format!("{}stack:\n  l1\n  l2\n", head)
    );
}

#[test]
fn why_shows_the_capsule_or_else_the_event() {
    let e = crash_event("b", "boom", 1_784_851_200_000, "cid9");
    let mut c = Capsule::default();
    c.app = "a".to_string();
    c.msg = "kaboom".to_string();
    let whole = render_why("a", &e, Some(&c));
    assert_eq!(whole, render_capsule(&c, "cid9", "n0de"));
    assert!(whole.contains("what:     kaboom\nnode:     n0de\n"));
    assert!(whole.ends_with("capsule:  cid9\n"));
    assert_eq!(
        render_why("a", &e, None),
        "a  2026-07-24 00:00:00 UTC  (capsule blob cid9 not fetchable — index event only)\n\
         what:  boom\nnode:  n0de\n"
    );
}

#[test]
fn plain_ids_show_their_first_characters() {
    let g = group("a", 1, 0, "bafkreigh2akiscaildc", "m");
    assert!(is_shortenable(&g.last_cid));
    assert!(render_group(&g).ends_with("  capsule bafkreigh2ak"));
}

#[test]
fn the_first_crash_is_the_latest_where_events_come_newest_first() {
    let events = vec![
        crash_event("a", "m", 9, "c9"),
        other_event(),
        crash_event("a", "m", 4, "c4"),
    ];
    let at = find_crash(&events, Some("n0")).unwrap();
    assert_eq!(read_crash(&events[at]).unwrap().ts_ms, 9);
}

#[test]
fn crashes_of_two_lists_add_up() {
    let a = vec![crash_event("a", "m", 1, "c1"), other_event()];
    let b = vec![crash_event("a", "m", 2, "c2")];
    let both: Vec<Value> = a.iter().chain(b.iter()).cloned().collect();
    let read = ce_crash::event::read_crashes(&both);
    let apart: Vec<String> = ce_crash::event::read_crashes(&a)
        .into_iter()
        .chain(ce_crash::event::read_crashes(&b))
        .map(|c| c.cid)
        .collect();
    assert_eq!(read.into_iter().map(|c| c.cid).collect::<Vec<String>>(), apart);
}

#[test]
fn sorting_keeps_the_order_within_one_time() {
    let groups = ce_crash::group::sort_groups(vec![
        group("a", 1, 3, "c", "m"),
        group("b", 1, 8, "c", "m"),
        group("c", 1, 3, "c", "m"),
        group("d", 1, 8, "c", "m"),
    ]);
    let apps: Vec<&str> = groups.iter().map(|g| g.app.as_str()).collect();
    assert_eq!(apps, vec!["b", "d", "a", "c"]);
}
