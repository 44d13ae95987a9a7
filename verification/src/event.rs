//! The index of the capsules: error events of ce-debug that carry the id of a capsule.

use crate::capsule::Capsule;
use crate::json::{
    as_text, as_unsigned, document, documents, empty_object, member, object_value, set_member,
    signed_value, text_or, text_value, unsigned_value, Json,
};
use crate::paths::part_of;
use crate::text::{join, joined_lines_come_apart, parted, push_joined, text_of, texts};
use serde_json::Value;
use vstd::prelude::*;

verus! {

/// `object` with the number under `key`, where there is one.
pub open spec fn with_number(object: Json, key: Seq<char>, n: Option<i32>) -> Json {
    match n {
        Some(n) => object.with(key, Json::Int(n as int)),
        None => object,
    }
}

/// `object` with the text under `key`, where there is one.
pub open spec fn with_text(object: Json, key: Seq<char>, s: Option<Seq<char>>) -> Json {
    match s {
        Some(s) => object.with(key, Json::Text(s)),
        None => object,
    }
}

/// The stack of a capsule for its index event: its own stack, or else its stderr tail.
pub open spec fn index_stack(c: Capsule) -> Option<Seq<char>> {
    if c.stack is Some {
        text_of(c.stack)
    } else if c.stderr_tail@.len() > 0 {
        Some(join(texts(c.stderr_tail@), "\n"@))
    } else {
        None
    }
}

/// The fields of the index event of capsule `c`, which is stored under `cid`.
pub open spec fn index_fields(c: Capsule, cid: Seq<char>) -> Json {
    let fields = empty_object().with("crash_cid"@, Json::Text(cid)).with(
        "exit_kind"@,
        Json::Text(c.exit_kind@),
    );
    let fields = with_number(fields, "exit_code"@, c.exit_code);
    let fields = with_number(fields, "signal"@, c.signal);
    with_text(fields, "exc_type"@, text_of(c.exc_type))
}

/// The index event of capsule `c`, which is stored under `cid`.
pub open spec fn index_document(c: Capsule, cid: Seq<char>) -> Json {
    let event = empty_object().with("ts_ms"@, Json::Int(c.ts_ms as int)).with(
        "app"@,
        Json::Text(c.app@),
    ).with("node"@, Json::Text(""@)).with("level"@, Json::Text("error"@)).with(
        "msg"@,
        Json::Text(c.msg@),
    ).with("fields"@, index_fields(c, cid));
    with_text(event, "stack"@, index_stack(c))
}

fn index_fields_value(capsule: &Capsule, cid: &str) -> (r: Value)
    ensures
        document(r) == index_fields(*capsule, cid@),
{
    let mut fields = object_value();
    set_member(&mut fields, "crash_cid", text_value(cid));
    set_member(&mut fields, "exit_kind", text_value(capsule.exit_kind.as_str()));
    if let Some(c) = capsule.exit_code {
        set_member(&mut fields, "exit_code", signed_value(c));
    }
    if let Some(s) = capsule.signal {
        set_member(&mut fields, "signal", signed_value(s));
    }
    if let Some(t) = &capsule.exc_type {
        set_member(&mut fields, "exc_type", text_value(t.as_str()));
    }
    fields
}

/// The index event of a sealed capsule: an error event whose fields carry the id under which
/// the capsule is stored.
pub fn index_event(capsule: &Capsule, cid: &str) -> (r: Value)
    ensures
        document(r) == index_document(*capsule, cid@),
{
    let fields = index_fields_value(capsule, cid);
    let mut event = object_value();
    set_member(&mut event, "ts_ms", unsigned_value(capsule.ts_ms));
    set_member(&mut event, "app", text_value(capsule.app.as_str()));
    set_member(&mut event, "node", text_value(""));
    set_member(&mut event, "level", text_value("error"));
    set_member(&mut event, "msg", text_value(capsule.msg.as_str()));
    set_member(&mut event, "fields", fields);
    if let Some(stack) = &capsule.stack {
        set_member(&mut event, "stack", text_value(stack.as_str()));
    } else if capsule.stderr_tail.len() > 0 {
        let mut stack = String::new();
        push_joined(&mut stack, &capsule.stderr_tail, "\n");
        assert(stack@ =~= join(texts(capsule.stderr_tail@), "\n"@));
        set_member(&mut event, "stack", text_value(stack.as_str()));
    }
    event
}

// ---- reading ----

/// A crash as its index event tells it.
pub struct Crash {
    /// The id under which the capsule is stored.
    pub cid: String,
    pub app: String,
    pub msg: String,
    pub ts_ms: u64,
    pub node: String,
}

/// A crash as its index event tells it, with its texts as sequences of characters.
#[verifier::ext_equal]
pub struct CrashView {
    pub cid: Seq<char>,
    pub app: Seq<char>,
    pub msg: Seq<char>,
    pub ts_ms: int,
    pub node: Seq<char>,
}

impl View for Crash {
    type V = CrashView;

    open spec fn view(&self) -> CrashView {
        CrashView {
            cid: self.cid@,
            app: self.app@,
            msg: self.msg@,
            ts_ms: self.ts_ms as int,
            node: self.node@,
        }
    }
}

/// The text under `key`; the empty text where there is none.
pub open spec fn text_at(event: Json, key: Seq<char>) -> Seq<char> {
    text_or(event.member(key).text(), ""@)
}

/// The whole number under `key`; 0 where there is none.
pub open spec fn number_at(event: Json, key: Seq<char>) -> int {
    match event.member(key).unsigned() {
        Some(n) => n,
        None => 0,
    }
}

/// The id of a capsule that `event` carries.
pub open spec fn crash_cid(event: Json) -> Option<Seq<char>> {
    event.member("fields"@).member("crash_cid"@).text()
}

/// What `event` tells of a crash whose capsule is stored under `cid`.
pub open spec fn crash_under(event: Json, cid: Seq<char>) -> CrashView {
    CrashView {
        cid,
        app: text_at(event, "app"@),
        msg: text_at(event, "msg"@),
        ts_ms: number_at(event, "ts_ms"@),
        node: text_at(event, "node"@),
    }
}

/// The crash that `event` tells of: none where it carries no id of a capsule.
pub open spec fn crash_in(event: Json) -> Option<CrashView> {
    match crash_cid(event) {
        Some(cid) => Some(crash_under(event, cid)),
        None => None,
    }
}

/// The crashes that `events` tell of, in their order.
pub open spec fn crashes_in(events: Seq<Json>) -> Seq<CrashView>
    decreases events.len(),
{
    if events.len() == 0 {
        Seq::empty()
    } else {
        match crash_in(events.last()) {
            Some(crash) => crashes_in(events.drop_last()).push(crash),
            None => crashes_in(events.drop_last()),
        }
    }
}

/// The crashes that a list holds.
pub open spec fn crash_views(crashes: Seq<Crash>) -> Seq<CrashView> {
    crashes.map_values(|c: Crash| c@)
}

/// The text under `key`; `default` where there is none.
pub(crate) fn read_text(event: &Value, key: &str, default: &str) -> (r: String)
    ensures
        r@ == text_or(document(*event).member(key@).text(), default@),
{
    match as_text(member(event, key)) {
        Some(s) => s.to_owned(),
        None => default.to_owned(),
    }
}

/// The whole number under `key`; 0 where there is none.
pub(crate) fn read_number(event: &Value, key: &str) -> (r: u64)
    ensures
        r == number_at(document(*event), key@),
{
    match as_unsigned(member(event, key)) {
        Some(n) => n,
        None => 0,
    }
}

/// What `event` tells of a crash whose capsule is stored under `cid`.
pub(crate) fn read_crash_under(event: &Value, cid: &str) -> (r: Crash)
    ensures
        r@ == crash_under(document(*event), cid@),
{
    Crash {
        cid: cid.to_owned(),
        app: read_text(event, "app", ""),
        msg: read_text(event, "msg", ""),
        ts_ms: read_number(event, "ts_ms"),
        node: read_text(event, "node", ""),
    }
}

/// The crash that `event` tells of: none where it carries no id of a capsule.
pub fn read_crash(event: &Value) -> (r: Option<Crash>)
    ensures
        match r {
            Some(crash) => crash_in(document(*event)) == Some(crash@),
            None => crash_in(document(*event)) is None,
        },
{
    match as_text(member(member(event, "fields"), "crash_cid")) {
        Some(cid) => Some(read_crash_under(event, cid)),
        None => None,
    }
}

/// The crashes that `events` tell of, in their order.
pub fn read_crashes(events: &[Value]) -> (r: Vec<Crash>)
    ensures
        crash_views(r@) == crashes_in(documents(events@)),
{
    let ghost docs = documents(events@);
    let mut out: Vec<Crash> = Vec::new();
    let mut i: usize = 0;
    assert(crash_views(out@) =~= crashes_in(docs.take(0)));
    while i < events.len()
        invariant
            i <= events@.len(),
            docs == documents(events@),
            crash_views(out@) == crashes_in(docs.take(i as int)),
        decreases events@.len() - i,
    {
        assert(docs.take(i + 1).drop_last() =~= docs.take(i as int));
        assert(docs.take(i + 1).last() == document(events@[i as int]));
        if let Some(crash) = read_crash(&events[i]) {
            assert(crash_views(out@.push(crash)) =~= crash_views(out@).push(crash@));
            out.push(crash);
        }
        i += 1;
    }
    assert(docs.take(i as int) =~= docs);
    out
}

// ---- laws ----

proof fn keys_differ()
    ensures
        "crash_cid"@ != "exit_kind"@,
        "crash_cid"@ != "exit_code"@,
        "crash_cid"@ != "signal"@,
        "crash_cid"@ != "exc_type"@,
        "fields"@ != "stack"@,
        "app"@ != "node"@ && "app"@ != "level"@ && "app"@ != "msg"@ && "app"@ != "fields"@
            && "app"@ != "stack"@,
        "msg"@ != "fields"@ && "msg"@ != "stack"@,
        "ts_ms"@ != "app"@ && "ts_ms"@ != "node"@ && "ts_ms"@ != "level"@ && "ts_ms"@ != "msg"@
            && "ts_ms"@ != "fields"@ && "ts_ms"@ != "stack"@,
        "node"@ != "level"@ && "node"@ != "msg"@ && "node"@ != "fields"@ && "node"@ != "stack"@,
        "level"@ != "msg"@ && "level"@ != "fields"@ && "level"@ != "stack"@,
{
    reveal_strlit("crash_cid");
    reveal_strlit("exit_kind");
    reveal_strlit("exit_code");
    reveal_strlit("signal");
    reveal_strlit("exc_type");
    reveal_strlit("fields");
    reveal_strlit("stack");
    reveal_strlit("app");
    reveal_strlit("node");
    reveal_strlit("level");
    reveal_strlit("msg");
    reveal_strlit("ts_ms");
    assert("node"@.len() == 4 && "app"@.len() == 3 && "msg"@.len() == 3 && "level"@.len() == 5);
    assert("crash_cid"@[0] != "exit_kind"@[0]);
    assert("crash_cid"@[0] != "exit_code"@[0]);
    assert("app"@[0] != "msg"@[0]);
    assert("ts_ms"@[0] != "level"@[0]);
    assert("ts_ms"@[0] != "stack"@[0]);
    assert("level"@[0] != "stack"@[0]);
}

/// The index event of a capsule is an error event that tells of the crash: its app, its message,
/// its time, and the id under which the capsule is stored. The node is left to the collector.
pub proof fn index_event_tells_of_the_crash(c: Capsule, cid: Seq<char>)
    ensures
        crash_in(index_document(c, cid)) == Some(
            CrashView { cid, app: c.app@, msg: c.msg@, ts_ms: c.ts_ms as int, node: ""@ },
        ),
        index_document(c, cid).member("level"@) == Json::Text("error"@),
        index_document(c, cid).member("stack"@).text() == index_stack(c),
{
    keys_differ();
}

/// The crashes in two lists of events, one behind the other, are those in the one and those in
/// the other.
pub proof fn crashes_add_up(a: Seq<Json>, b: Seq<Json>)
    ensures
        crashes_in(a + b) == crashes_in(a) + crashes_in(b),
    decreases b.len(),
{
    if b.len() == 0 {
        assert(a + b =~= a);
        assert(crashes_in(a) + crashes_in(b) =~= crashes_in(a));
    } else {
        crashes_add_up(a, b.drop_last());
        assert((a + b).drop_last() =~= a + b.drop_last());
        assert(crashes_in(a + b) =~= crashes_in(a) + crashes_in(b));
    }
}

/// An event that carries no id of a capsule makes no difference, wherever it stands.
pub proof fn other_events_make_no_difference(a: Seq<Json>, event: Json, b: Seq<Json>)
    requires
        crash_cid(event) is None,
    ensures
        crashes_in(a.push(event) + b) == crashes_in(a + b),
{
    crashes_add_up(a.push(event), b);
    crashes_add_up(a, b);
    assert(a.push(event).drop_last() =~= a);
}

/// The same events in another order tell of the same crashes.
pub proof fn the_same_events_tell_of_the_same_crashes(a: Seq<Json>, b: Seq<Json>)
    requires
        a.to_multiset() == b.to_multiset(),
    ensures
        crashes_in(a).to_multiset() == crashes_in(b).to_multiset(),
    decreases a.len(),
{
    broadcast use vstd::seq_lib::group_to_multiset_ensures;

    a.to_multiset_ensures();
    b.to_multiset_ensures();
    if a.len() == 0 {
        assert(b.len() == 0);
        assert(a =~= b);
    } else {
        let last = a.last();
        let rest = a.drop_last();
        assert(a.contains(last));
        assert(b.to_multiset().count(last) > 0);
        let i = choose|i: int| 0 <= i < b.len() && b[i] == last;
        let before = b.take(i);
        let after = b.skip(i + 1);
        assert(b =~= before.push(last) + after);
        assert(b.remove(i) =~= before + after);
        assert(rest.push(last) =~= a);
        assert(a.to_multiset() == rest.to_multiset().insert(last));
        assert(b.remove(i).to_multiset() == b.to_multiset().remove(last));
        assert(rest.to_multiset() =~= b.remove(i).to_multiset());
        the_same_events_tell_of_the_same_crashes(rest, b.remove(i));
        crashes_add_up(before, after);
        crashes_add_up(before.push(last), after);
        assert(before.push(last).drop_last() =~= before);
        if let Some(crash) = crash_in(last) {
            let x = crashes_in(before);
            let y = crashes_in(after);
            assert(x.push(crash) + y =~= (x + y).insert(x.len() as int, crash));
            vstd::seq_lib::to_multiset_insert(x + y, x.len() as int, crash);
            assert(crashes_in(a) == crashes_in(rest).push(crash));
        }
    }
}

/// The index event of a capsule carries its evidence. Its own stack is carried as it is. Without
/// one all of the lines of stderr are carried: parted at its line feeds, the stack of the event
/// gives back every line, in order. Without either there is no stack.
pub proof fn the_evidence_is_carried(c: Capsule, cid: Seq<char>)
    ensures
        c.stack matches Some(stack) ==> index_document(c, cid).member("stack"@) == Json::Text(
            stack@,
        ),
        ({
            let tail = texts(c.stderr_tail@);
            let stack = index_document(c, cid).member("stack"@);
            c.stack is None && tail.len() > 0 ==> {
                &&& stack is Text
                &&& (forall|i: int| 0 <= i < tail.len() ==> !(#[trigger] tail[i]).contains('\n'))
                    ==> parted(stack->Text_0) == tail
                &&& forall|i: int|
                    0 <= i < tail.len() ==> part_of(#[trigger] tail[i], stack->Text_0)
            }
        }),
        c.stack is None && c.stderr_tail@.len() == 0 ==> index_document(c, cid).member("stack"@)
            == Json::Null,
{
    keys_differ();
    let tail = texts(c.stderr_tail@);
    if c.stack is None && tail.len() > 0 {
        let stack = index_document(c, cid).member("stack"@);
        if forall|i: int| 0 <= i < tail.len() ==> !(#[trigger] tail[i]).contains('\n') {
            joined_lines_come_apart(tail);
        }
        assert forall|i: int| 0 <= i < tail.len() implies part_of(
            #[trigger] tail[i],
            stack->Text_0,
        ) by {
            parts_stand_in_what_is_joined(tail, "\n"@, i);
        }
    }
}

proof fn parts_stand_in_what_is_joined(parts: Seq<Seq<char>>, separator: Seq<char>, i: int)
    requires
        0 <= i < parts.len(),
    ensures
        part_of(parts[i], join(parts, separator)),
    decreases parts.len(),
{
    let all = join(parts, separator);
    if i == parts.len() - 1 {
        assert(all.subrange(all.len() - parts[i].len(), all.len() as int) =~= parts[i]);
    } else {
        parts_stand_in_what_is_joined(parts.drop_last(), separator, i);
        let start = join(parts.drop_last(), separator);
        let (from, to) = choose|from: int, to: int|
            0 <= from <= to <= start.len() && parts.drop_last()[i] == #[trigger] start.subrange(
                from,
                to,
            );
        assert(all.subrange(from, to) =~= start.subrange(from, to));
    }
}

/// The index event of a capsule says what the capsule says, member by member, and says nothing
/// more. Its exit code, its signal and the class of its exception are there exactly where the
/// capsule has them.
#[verifier::spinoff_prover]
pub proof fn the_index_event_says_what_the_capsule_says(c: Capsule, cid: Seq<char>)
    ensures
        ({
            let event = index_document(c, cid);
            let fields = event.member("fields"@);
            &&& event.member("ts_ms"@) == Json::Int(c.ts_ms as int)
            &&& event.member("app"@) == Json::Text(c.app@)
            &&& event.member("node"@) == Json::Text(""@)
            &&& event.member("level"@) == Json::Text("error"@)
            &&& event.member("msg"@) == Json::Text(c.msg@)
            &&& fields.member("crash_cid"@) == Json::Text(cid)
            &&& fields.member("exit_kind"@) == Json::Text(c.exit_kind@)
            &&& fields.member("exit_code"@) == match c.exit_code {
                Some(code) => Json::Int(code as int),
                None => Json::Null,
            }
            &&& fields.member("signal"@) == match c.signal {
                Some(signal) => Json::Int(signal as int),
                None => Json::Null,
            }
            &&& fields.member("exc_type"@) == match c.exc_type {
                Some(class) => Json::Text(class@),
                None => Json::Null,
            }
            &&& forall|key: Seq<char>| #[trigger]
                event.member(key) != Json::Null ==> key == "ts_ms"@ || key == "app"@ || key
                    == "node"@ || key == "level"@ || key == "msg"@ || key == "fields"@ || key
                    == "stack"@
            &&& forall|key: Seq<char>| #[trigger]
                fields.member(key) != Json::Null ==> key == "crash_cid"@ || key == "exit_kind"@
                    || key == "exit_code"@ || key == "signal"@ || key == "exc_type"@
        }),
{
    keys_differ();
    field_keys_differ();
}

proof fn field_keys_differ()
    ensures
        "exit_kind"@ != "exit_code"@,
        "exit_kind"@ != "signal"@,
        "exit_kind"@ != "exc_type"@,
        "exit_code"@ != "signal"@,
        "exit_code"@ != "exc_type"@,
        "signal"@ != "exc_type"@,
{
    reveal_strlit("exit_kind");
    reveal_strlit("exit_code");
    reveal_strlit("signal");
    reveal_strlit("exc_type");
    assert("exit_kind"@[5] != "exit_code"@[5]);
    assert("exit_kind"@.len() == 9 && "exit_code"@.len() == 9 && "signal"@.len() == 6
        && "exc_type"@.len() == 8);
}

/// An event tells of a crash exactly where its fields hold a text as the id of a capsule. The crash
/// is told by what the event says; what it does not say is empty, or 0 for the time.
pub proof fn a_crash_is_told_by_its_event(event: Json, cid: Seq<char>)
    ensures
        ({
            let id = event.member("fields"@).member("crash_cid"@);
            &&& crash_in(event) is Some <==> id is Text
            &&& id == Json::Text(cid) ==> crash_in(event) is Some && {
                let crash = crash_in(event)->Some_0;
                &&& crash.cid == cid
                &&& event.member("app"@) == Json::Text(crash.app) || (!(event.member("app"@) is Text)
                    && crash.app.len() == 0)
                &&& event.member("msg"@) == Json::Text(crash.msg) || (!(event.member("msg"@) is Text)
                    && crash.msg.len() == 0)
                &&& event.member("node"@) == Json::Text(crash.node) || (!(event.member(
                    "node"@,
                ) is Text) && crash.node.len() == 0)
                &&& match event.member("ts_ms"@) {
                    Json::Int(n) => crash.ts_ms == if n >= 0 {
                        n
                    } else {
                        0
                    },
                    _ => crash.ts_ms == 0,
                }
            }
        }),
{
    reveal_strlit("");
}

/// Of events one by one: one that tells of a crash adds that crash, one that tells of none adds
/// nothing.
pub proof fn each_event_tells_of_its_crash(event: Json)
    ensures
        crashes_in(Seq::<Json>::empty()).len() == 0,
        crash_in(event) matches Some(crash) ==> crashes_in(seq![event]) == seq![crash],
        crash_in(event) is None ==> crashes_in(seq![event]).len() == 0,
{
    assert(seq![event].drop_last() =~= Seq::<Json>::empty());
    assert(seq![event].last() == event);
    if let Some(crash) = crash_in(event) {
        let none = Seq::<Json>::empty();
        assert(crashes_in(none) == Seq::<CrashView>::empty());
        assert(crashes_in(seq![event]) == crashes_in(none).push(crash));
        assert(crashes_in(seq![event]) =~= seq![crash]);
    }
}

/// A crash is seen as it is, and so are all crashes of a list, one for one.
pub proof fn crashes_are_seen_as_they_are(crash: Crash, crashes: Seq<Crash>)
    ensures
        crash@.cid == crash.cid@ && crash@.app == crash.app@ && crash@.msg == crash.msg@
            && crash@.ts_ms == crash.ts_ms && crash@.node == crash.node@,
        crash_views(crashes).len() == crashes.len(),
        forall|i: int| 0 <= i < crashes.len() ==> #[trigger] crash_views(crashes)[i] == crashes[i]@,
{
}

} // verus!
