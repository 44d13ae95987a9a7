//! What the read side of the command line says.

use crate::calendar::{
    clock_text, datetime_text, fmt_datetime, fmt_time, moments_on_one_line, times_of_day_read_back,
};
use crate::capsule::Capsule;
use crate::event::{
    crash_cid, crash_in, index_document, number_at, read_crash, read_crash_under, text_at,
    the_index_event_says_what_the_capsule_says, Crash,
};
use crate::group::{group_views, start_of, CrashGroup, GroupView};
use crate::json::{as_text, document, documents, member, text_or, Json};
use crate::paths::part_of;
use crate::reading::{
    a_report_tells_its_blocks, are_blocks, are_lines, differ, ended, ended_adds_up, ended_one,
    lines_of, lines_of_one_more, listed, told, Block,
};
use crate::render::{
    capsule_text, indented, label_block, label_lines, list_block, list_lines, push_stack,
    render_capsule, stack_lines, what_a_label_says,
};
use crate::text::{
    chars_of, decimal, first_line, first_line_of, lines, lines_hold_no_line_feed, pad_left,
    pad_right, padding_left_keeps_the_text, padding_right_keeps_the_text, parted, push_decimal,
    push_padded_left, push_padded_right, text_of, together_on_one_line,
};
use serde_json::Value;
use vstd::prelude::*;
use vstd::utf8::{
    decode_utf8, decode_utf8_encode_utf8, decode_utf8_split, encode_utf8, encode_utf8_decode_utf8,
    encode_utf8_valid_utf8, is_ascii_chars, is_ascii_chars_encode_utf8, is_char_boundary,
    is_char_boundary_iff_not_is_continuation_byte, is_char_boundary_start_end_of_seq,
    valid_utf8_split,
};

verus! {

/// How many bytes of the id of a capsule are shown in a list.
pub const SHORT_CID_BYTES: usize = 12;

/// How many bytes of `cid` are shown in a list.
pub open spec fn short_len(cid: Seq<char>) -> int {
    if encode_utf8(cid).len() <= SHORT_CID_BYTES {
        encode_utf8(cid).len() as int
    } else {
        SHORT_CID_BYTES as int
    }
}

/// Whether what is shown of `cid` in a list ends with a whole character.
pub open spec fn can_shorten(cid: Seq<char>) -> bool {
    is_char_boundary(encode_utf8(cid), short_len(cid))
}

/// What is shown of `cid` in a list: its first bytes.
pub open spec fn short_cid(cid: Seq<char>) -> Seq<char> {
    decode_utf8(encode_utf8(cid).subrange(0, short_len(cid)))
}

/// A group of crashes as a row of a list: how many, when last, the app, what happened, and the
/// start of the id of the last capsule.
pub open spec fn group_row(g: GroupView) -> Seq<char> {
    pad_left(decimal(g.count as nat), ' ', 4) + "x  last "@ + clock_text(g.last_ts_ms / 1000)
        + "  "@ + pad_right(g.app, ' ', 16) + " "@ + first_line(g.sample_msg) + "  capsule "@
        + short_cid(g.last_cid)
}

/// The rows of a list of groups, each a line of its own.
pub open spec fn group_rows(groups: Seq<GroupView>) -> Seq<char>
    decreases groups.len(),
{
    if groups.len() == 0 {
        Seq::empty()
    } else {
        group_rows(groups.drop_last()) + group_row(groups.last()) + "\n"@
    }
}

/// What is said of `groups`.
pub open spec fn list_text(groups: Seq<GroupView>) -> Seq<char> {
    if groups.len() == 0 {
        "no crashes recorded\n"@
    } else {
        group_rows(groups)
    }
}

/// How many bytes of `cid` are shown in a list.
fn shown_bytes(cid: &str) -> (r: usize)
    ensures
        r == short_len(cid@),
{
    let bytes = cid.as_bytes();
    if bytes.len() <= SHORT_CID_BYTES {
        bytes.len()
    } else {
        SHORT_CID_BYTES
    }
}

/// Whether what is shown of `cid` in a list ends with a whole character.
pub fn is_shortenable(cid: &str) -> (r: bool)
    ensures
        r == can_shorten(cid@),
{
    cid.is_char_boundary(shown_bytes(cid))
}

/// Appends what is shown of `cid` in a list.
fn push_short_cid(out: &mut String, cid: &str)
    requires
        can_shorten(cid@),
    ensures
        final(out)@ == old(out)@ + short_cid(cid@),
{
    let (start, _) = cid.split_at(shown_bytes(cid));
    proof {
        encode_utf8_decode_utf8(start@);
    }
    out.append(start);
}

/// A group of crashes as a row of a list.
pub fn render_group(g: &CrashGroup) -> (r: String)
    requires
        can_shorten(g.last_cid@),
    ensures
        r@ == group_row(g@),
{
    let mut count = String::new();
    push_decimal(&mut count, g.count);
    assert(count@ =~= decimal(g.count as nat));
    let mut out = String::new();
    push_padded_left(&mut out, count.as_str(), ' ', 4);
    assert(out@ =~= pad_left(decimal(g.count as nat), ' ', 4));
    out.append("x  last ");
    out.append(fmt_time(g.last_ts_ms).as_str());
    out.append("  ");
    push_padded_right(&mut out, g.app.as_str(), ' ', 16);
    out.append(" ");
    out.append(first_line_of(g.sample_msg.as_str()).as_str());
    out.append("  capsule ");
    push_short_cid(&mut out, g.last_cid.as_str());
    out
}

/// What is said of `groups`: a row for each, or that there are none.
pub fn render_list(groups: &[CrashGroup]) -> (r: String)
    requires
        forall|i: int| 0 <= i < groups@.len() ==> can_shorten((#[trigger] groups@[i]).last_cid@),
    ensures
        r@ == list_text(group_views(groups@)),
{
    if groups.len() == 0 {
        return "no crashes recorded\n".to_owned();
    }
    let ghost all = group_views(groups@);
    let mut out = String::new();
    let mut i: usize = 0;
    assert(out@ =~= group_rows(all.take(0)));
    while i < groups.len()
        invariant
            i <= groups@.len(),
            all == group_views(groups@),
            forall|k: int|
                0 <= k < groups@.len() ==> can_shorten((#[trigger] groups@[k]).last_cid@),
            out@ == group_rows(all.take(i as int)),
        decreases groups@.len() - i,
    {
        out.append(render_group(&groups[i]).as_str());
        out.append("\n");
        assert(all.take(i + 1).drop_last() =~= all.take(i as int));
        assert(all.take(i + 1).last() == groups@[i as int]@);
        i += 1;
    }
    assert(all.take(i as int) =~= all);
    out
}

// ---- why ----

/// Whether `event` tells of a crash on a node whose id starts with `node`, or on any node where
/// none is asked for.
pub open spec fn is_wanted(event: Json, node: Option<Seq<char>>) -> bool {
    &&& crash_in(event) is Some
    &&& node matches Some(start) ==> start.is_prefix_of(text_at(event, "node"@))
}

/// Whether `s` starts with `start`.
fn starts_with(s: &str, start: &str) -> (r: bool)
    ensures
        r == start@.is_prefix_of(s@),
{
    let a = chars_of(start);
    let b = chars_of(s);
    if a.len() > b.len() {
        return false;
    }
    let mut i: usize = 0;
    while i < a.len()
        invariant
            i <= a@.len() <= b@.len(),
            a@ == start@,
            b@ == s@,
            forall|k: int| 0 <= k < i ==> a@[k] == b@[k],
        decreases a@.len() - i,
    {
        if a[i] != b[i] {
            assert(start@[i as int] != s@.subrange(0, start@.len() as int)[i as int]);
            return false;
        }
        i += 1;
    }
    assert(start@ =~= s@.subrange(0, start@.len() as int));
    true
}

/// The position of the first event that tells of a crash, on a node whose id starts with `node`
/// if one is asked for. The service gives the newest event first, so this is the latest crash.
pub fn find_crash(events: &[Value], node: Option<&str>) -> (r: Option<usize>)
    ensures
        ({
            let docs = documents(events@);
            let wanted = match node {
                Some(node) => Some(node@),
                None => None,
            };
            match r {
                Some(at) => at < docs.len() && is_wanted(docs[at as int], wanted) && forall|i: int|
                    0 <= i < at ==> !is_wanted(#[trigger] docs[i], wanted),
                None => forall|i: int| 0 <= i < docs.len() ==> !is_wanted(#[trigger] docs[i], wanted),
            }
        }),
{
    let ghost docs = documents(events@);
    let ghost wanted = match node {
        Some(node) => Some(node@),
        None => None,
    };
    let mut i: usize = 0;
    while i < events.len()
        invariant
            i <= events@.len(),
            docs == documents(events@),
            wanted == match node {
                Some(node) => Some(node@),
                None => None::<Seq<char>>,
            },
            forall|k: int| 0 <= k < i ==> !is_wanted(#[trigger] docs[k], wanted),
        decreases events@.len() - i,
    {
        assert(docs[i as int] == document(events@[i as int]));
        if let Some(crash) = read_crash(&events[i]) {
            let fits = match node {
                Some(start) => starts_with(crash.node.as_str(), start),
                None => true,
            };
            if fits {
                return Some(i);
            }
        }
        i += 1;
    }
    None
}

/// What is said of a crash whose capsule cannot be had: what its index event tells.
pub open spec fn index_only_text(
    app: Seq<char>,
    ts_ms: int,
    cid: Seq<char>,
    msg: Seq<char>,
    node: Seq<char>,
    stack: Option<Seq<char>>,
) -> Seq<char> {
    app + "  "@ + datetime_text(ts_ms) + "  (capsule blob "@ + cid
        + " not fetchable — index event only)\nwhat:  "@ + msg + "\nnode:  "@ + node + "\n"@
        + stack_lines(stack)
}

/// What is said of a crash whose capsule cannot be had: what its index event tells.
pub fn render_index_only(app: &str, crash: &Crash, stack: &Option<String>) -> (r: String)
    ensures
        r@ == index_only_text(
            app@,
            crash.ts_ms as int,
            crash.cid@,
            crash.msg@,
            crash.node@,
            text_of(*stack),
        ),
{
    let mut out = app.to_owned();
    out.append("  ");
    out.append(fmt_datetime(crash.ts_ms).as_str());
    out.append("  (capsule blob ");
    out.append(crash.cid.as_str());
    out.append(" not fetchable — index event only)\nwhat:  ");
    out.append(crash.msg.as_str());
    out.append("\nnode:  ");
    out.append(crash.node.as_str());
    out.append("\n");
    push_stack(&mut out, stack);
    out
}

/// The stack that an event carries.
pub fn event_stack(event: &Value) -> (r: Option<String>)
    ensures
        text_of(r) == document(*event).member("stack"@).text(),
{
    match as_text(member(event, "stack")) {
        Some(stack) => Some(stack.to_owned()),
        None => None,
    }
}

/// What is said of the crash of `app` that `event` tells of.
pub open spec fn why_text(app: Seq<char>, event: Json, capsule: Option<Capsule>) -> Seq<char> {
    let cid = text_or(crash_cid(event), ""@);
    match capsule {
        Some(capsule) => capsule_text(capsule, cid, text_at(event, "node"@)),
        None => index_only_text(
            app,
            number_at(event, "ts_ms"@),
            cid,
            text_at(event, "msg"@),
            text_at(event, "node"@),
            event.member("stack"@).text(),
        ),
    }
}

/// What is said of the crash of `app` that `event` tells of: its capsule where that could be had,
/// else what the event itself tells.
pub fn render_why(app: &str, event: &Value, capsule: Option<&Capsule>) -> (r: String)
    ensures
        r@ == why_text(
            app@,
            document(*event),
            match capsule {
                Some(capsule) => Some(*capsule),
                None => None,
            },
        ),
        ({
            let doc = document(*event);
            let cid = text_or(crash_cid(doc), ""@);
            let node = text_at(doc, "node"@);
            r@ == match capsule {
                Some(capsule) => capsule_text(*capsule, cid, node),
                None => index_only_text(
                    app@,
                    number_at(doc, "ts_ms"@),
                    cid,
                    text_at(doc, "msg"@),
                    node,
                    doc.member("stack"@).text(),
                ),
            }
        }),
{
    let cid = match as_text(member(member(event, "fields"), "crash_cid")) {
        Some(cid) => cid,
        None => "",
    };
    let crash = read_crash_under(event, cid);
    match capsule {
        Some(capsule) => render_capsule(capsule, crash.cid.as_str(), crash.node.as_str()),
        None => render_index_only(app, &crash, &event_stack(event)),
    }
}

// ---- laws ----

/// Where the newest event comes first, the first crash that is wanted is the latest one.
pub proof fn the_first_wanted_is_the_latest(events: Seq<Json>, node: Option<Seq<char>>, at: int)
    requires
        forall|i: int, j: int|
            0 <= i < j < events.len() ==> number_at(#[trigger] events[i], "ts_ms"@) >= number_at(
                #[trigger] events[j],
                "ts_ms"@,
            ),
        0 <= at < events.len(),
        is_wanted(events[at], node),
        forall|i: int| 0 <= i < at ==> !is_wanted(#[trigger] events[i], node),
    ensures
        forall|i: int|
            0 <= i < events.len() && is_wanted(#[trigger] events[i], node) ==> number_at(
                events[at],
                "ts_ms"@,
            ) >= number_at(events[i], "ts_ms"@),
{
}

/// The id of a capsule that is plain ASCII can be cut short, and is then its first characters.
pub proof fn plain_ids_are_cut_short(cid: Seq<char>)
    requires
        is_ascii_chars(cid),
    ensures
        can_shorten(cid),
        short_cid(cid) == start_of(cid, SHORT_CID_BYTES as int),
{
    is_ascii_chars_encode_utf8(cid);
    let n = short_len(cid);
    let start = start_of(cid, SHORT_CID_BYTES as int);
    assert(is_ascii_chars(start)) by {
        assert forall|i: int| 0 <= i < start.len() implies start[i] == #[trigger] cid[i] by {}
    }
    is_ascii_chars_encode_utf8(start);
    assert(encode_utf8(start) =~= encode_utf8(cid).subrange(0, n));
    encode_utf8_decode_utf8(start);
    encode_utf8_valid_utf8(cid);
    let bytes = encode_utf8(cid);
    if n < bytes.len() {
        is_char_boundary_iff_not_is_continuation_byte(bytes, n);
        assert(bytes[n] == cid[n] as u8);
    } else {
        is_char_boundary_start_end_of_seq(bytes);
    }
}

/// Every event that carries the id of a capsule is wanted where no node is asked for, however the
/// crash came about; where one is asked for, exactly if the node of the event starts with it.
pub proof fn every_crash_is_wanted(event: Json, node: Seq<char>, start: Seq<char>)
    ensures
        ({
            let id = event.member("fields"@).member("crash_cid"@);
            &&& is_wanted(event, None) <==> id is Text
            &&& event.member("node"@) == Json::Text(node) ==> (is_wanted(event, Some(start))
                <==> id is Text && start.is_prefix_of(node))
            &&& !(event.member("node"@) is Text) ==> (is_wanted(event, Some(start)) <==> id is Text
                && start.len() == 0)
        }),
{
    reveal_strlit("");
    if start.len() == 0 {
        assert(""@.subrange(0, 0) =~= start);
    }
}

/// The crash of every capsule is found: its index event is wanted where no node is asked for, and
/// once the collector has stamped the node, where a start of that is asked for.
pub proof fn every_capsule_is_wanted(c: Capsule, cid: Seq<char>, node: Seq<char>, start: Seq<char>)
    ensures
        is_wanted(index_document(c, cid), None),
        is_wanted(index_document(c, cid).with("node"@, Json::Text(node)), None),
        is_wanted(index_document(c, cid).with("node"@, Json::Text(node)), Some(start))
            <==> start.is_prefix_of(node),
{
    the_index_event_says_what_the_capsule_says(c, cid);
    let event = index_document(c, cid);
    let stamped = event.with("node"@, Json::Text(node));
    assert(event.member("fields"@) is Object);
    reveal_strlit("node");
    reveal_strlit("fields");
    assert("node"@.len() == 4 && "fields"@.len() == 6);
    assert(stamped.member("fields"@) == event.member("fields"@));
    every_crash_is_wanted(event, ""@, start);
    every_crash_is_wanted(stamped, node, start);
}

/// What is shown of an id in a list is a start of it, of as many bytes as are shown, or all of it if
/// it is not longer.
pub proof fn a_short_id_is_a_start_of_the_id(cid: Seq<char>)
    ensures
        encode_utf8(cid).len() <= SHORT_CID_BYTES ==> can_shorten(cid) && short_cid(cid) == cid,
        can_shorten(cid) && encode_utf8(cid).len() > SHORT_CID_BYTES ==> {
            &&& short_cid(cid).is_prefix_of(cid)
            &&& encode_utf8(short_cid(cid)).len() == SHORT_CID_BYTES
        },
{
    let bytes = encode_utf8(cid);
    let n = short_len(cid);
    encode_utf8_valid_utf8(cid);
    encode_utf8_decode_utf8(cid);
    is_char_boundary_start_end_of_seq(bytes);
    if bytes.len() <= SHORT_CID_BYTES {
        assert(bytes.subrange(0, n) =~= bytes);
    } else if can_shorten(cid) {
        valid_utf8_split(bytes, n);
        decode_utf8_split(bytes, n);
        decode_utf8_encode_utf8(bytes.subrange(0, n));
        let short = short_cid(cid);
        assert(cid.subrange(0, short.len() as int) =~= short);
    }
}

/// A row reads back: how many crashes, when the last one was, of which app, what happened, and the
/// start of the id of the last capsule, each in its column; a column is as wide as it has to be.
#[verifier::spinoff_prover]
pub proof fn a_row_reads_back(g: GroupView)
    requires
        g.count >= 0,
        g.last_ts_ms >= 0,
    ensures
        ({
            let row = group_row(g);
            let digits = decimal(g.count as nat);
            let a = if digits.len() > 4 {
                digits.len() as int
            } else {
                4
            };
            let w = if g.app.len() > 16 {
                g.app.len() as int
            } else {
                16
            };
            let line = first_line(g.sample_msg);
            let b = a + 18 + w + 1;
            let n = line.len() as int;
            &&& digits.is_suffix_of(row.take(a))
            &&& forall|i: int| 0 <= i < a - digits.len() ==> #[trigger] row[i] == ' '
            &&& row.subrange(a, a + 8) == "x  last "@
            &&& row.subrange(a + 8, a + 16) == clock_text(g.last_ts_ms / 1000)
            &&& row[a + 16] == ' ' && row[a + 17] == ' '
            &&& row.subrange(a + 18, a + 18 + g.app.len()) == g.app
            &&& forall|i: int| a + 18 + g.app.len() <= i < b ==> #[trigger] row[i] == ' '
            &&& row.subrange(b, b + n) == line
            &&& row.subrange(b + n, b + n + 10) == "  capsule "@
            &&& row.skip(b + n + 10) == short_cid(g.last_cid)
        }),
{
    reveal_strlit("x  last ");
    reveal_strlit("  ");
    reveal_strlit(" ");
    reveal_strlit("  capsule ");
    let row = group_row(g);
    let digits = decimal(g.count as nat);
    let count = pad_left(digits, ' ', 4);
    let app = pad_right(g.app, ' ', 16);
    let line = first_line(g.sample_msg);
    padding_left_keeps_the_text(digits, ' ', 4);
    padding_right_keeps_the_text(g.app, ' ', 16);
    times_of_day_read_back(g.last_ts_ms / 1000);
    let a = count.len() as int;
    let w = app.len() as int;
    let b = a + 18 + w + 1;
    let n = line.len() as int;
    let clock = clock_text(g.last_ts_ms / 1000);
    assert(row =~= count + "x  last "@ + clock + "  "@ + app + " "@ + line + "  capsule "@
        + short_cid(g.last_cid));
    assert(row.take(a) =~= count);
    assert forall|i: int| 0 <= i < a - digits.len() implies #[trigger] row[i] == ' ' by {
        assert(row[i] == count[i]);
    }
    assert(row.subrange(a, a + 8) =~= "x  last "@);
    assert(row.subrange(a + 8, a + 16) =~= clock);
    assert(row.subrange(a + 18, a + 18 + w) =~= app);
    assert(row.subrange(a + 18, a + 18 + g.app.len() as int) =~= g.app);
    assert forall|i: int| a + 18 + g.app.len() <= i < b implies #[trigger] row[i] == ' ' by {
        if i < b - 1 {
            assert(row[i] == app[i - a - 18]);
        }
    }
    assert(row.subrange(b, b + n) =~= line);
    assert(row.subrange(b + n, b + n + 10) =~= "  capsule "@);
    assert(row.skip(b + n + 10) =~= short_cid(g.last_cid));
}

/// A list has one row for each group, in their order: the rows of two lists, one behind the other,
/// are those of the one and those of the other.
pub proof fn a_list_has_a_row_for_each_group(
    a: Seq<GroupView>,
    b: Seq<GroupView>,
    g: GroupView,
)
    requires
        a.len() > 0,
        b.len() > 0,
    ensures
        list_text(seq![g]) == group_row(g) + "\n"@,
        list_text(a + b) == list_text(a) + list_text(b),
{
    rows_add_up(a, b);
    assert(seq![g].drop_last() =~= Seq::<GroupView>::empty());
    assert(seq![g].last() == g);
    assert(group_rows(Seq::<GroupView>::empty()) =~= Seq::<char>::empty());
    assert(group_rows(seq![g]) =~= group_row(g) + "\n"@);
}

proof fn rows_add_up(a: Seq<GroupView>, b: Seq<GroupView>)
    ensures
        group_rows(a + b) == group_rows(a) + group_rows(b),
    decreases b.len(),
{
    if b.len() == 0 {
        assert(a + b =~= a);
        assert(group_rows(a) + group_rows(b) =~= group_rows(a));
    } else {
        rows_add_up(a, b.drop_last());
        assert((a + b).drop_last() =~= a + b.drop_last());
        assert((a + b).last() == b.last());
        assert(group_rows(a + b) =~= group_rows(a) + group_rows(b));
    }
}

spec fn index_heading(app: Seq<char>, ts_ms: int, cid: Seq<char>) -> Seq<char> {
    app + "  "@ + datetime_text(ts_ms) + "  (capsule blob "@ + cid
        + " not fetchable — index event only)"@
}

spec fn stack_of(stack: Option<Seq<char>>) -> Option<Seq<Seq<char>>> {
    match stack {
        Some(stack) => Some(lines(stack)),
        None => None,
    }
}

spec fn index_blocks(
    msg: Seq<char>,
    node: Seq<char>,
    stack: Option<Seq<char>>,
) -> Seq<Block> {
    seq![
        label_block("what:  "@, Some(msg)),
        label_block("node:  "@, Some(node)),
        list_block("stack:"@, Seq::empty(), stack_of(stack)),
    ]
}

proof fn an_index_report_is_its_blocks(
    app: Seq<char>,
    ts_ms: int,
    cid: Seq<char>,
    msg: Seq<char>,
    node: Seq<char>,
    stack: Option<Seq<char>>,
)
    requires
        !app.contains('\n') && !cid.contains('\n') && !msg.contains('\n') && !node.contains(
            '\n',
        ),
    ensures
        ({
            let head = index_heading(app, ts_ms, cid);
            let blocks = index_blocks(msg, node, stack);
            &&& index_only_text(app, ts_ms, cid, msg, node, stack) == ended(
                seq![head] + lines_of(blocks),
            )
            &&& !head.contains('\n')
            &&& are_lines(lines_of(blocks))
            &&& are_blocks(blocks)
        }),
{
    let head = index_heading(app, ts_ms, cid);
    let blocks = index_blocks(msg, node, stack);
    an_index_heading_is_one_line(app, ts_ms, cid);
    index_blocks_are_blocks(msg, node, stack);
    ended_adds_up(seq![head], lines_of(blocks));
    ended_one(head);
    index_text_in_lines(app, ts_ms, cid, msg, node, stack);
}

proof fn an_index_heading_is_one_line(app: Seq<char>, ts_ms: int, cid: Seq<char>)
    requires
        !app.contains('\n') && !cid.contains('\n'),
    ensures
        !index_heading(app, ts_ms, cid).contains('\n'),
{
    reveal_strlit("  ");
    reveal_strlit("  (capsule blob ");
    reveal_strlit(" not fetchable — index event only)");
    let when = datetime_text(ts_ms);
    moments_on_one_line(ts_ms);
    together_on_one_line(app, "  "@);
    together_on_one_line(app + "  "@, when);
    together_on_one_line(app + "  "@ + when, "  (capsule blob "@);
    together_on_one_line(app + "  "@ + when + "  (capsule blob "@, cid);
    together_on_one_line(
        app + "  "@ + when + "  (capsule blob "@ + cid,
        " not fetchable — index event only)"@,
    );
}

spec fn index_lines(msg: Seq<char>, node: Seq<char>, stack: Option<Seq<char>>) -> Seq<char> {
    "what:  "@ + msg + seq!['\n'] + ("node:  "@ + node + seq!['\n']) + stack_lines(stack)
}

#[verifier::spinoff_prover]
proof fn index_text_in_lines(
    app: Seq<char>,
    ts_ms: int,
    cid: Seq<char>,
    msg: Seq<char>,
    node: Seq<char>,
    stack: Option<Seq<char>>,
)
    ensures
        index_only_text(app, ts_ms, cid, msg, node, stack) == index_heading(
            app,
            ts_ms,
            cid,
        ).push('\n') + index_lines(msg, node, stack),
{
    reveal_strlit("what:  ");
    reveal_strlit("node:  ");
    reveal_strlit("\n");
    reveal_strlit("\nnode:  ");
    reveal_strlit(" not fetchable — index event only)");
    reveal_strlit(" not fetchable — index event only)\nwhat:  ");
    let end = " not fetchable — index event only)"@;
    assert(" not fetchable — index event only)\nwhat:  "@ =~= end + seq!['\n'] + "what:  "@);
    assert("\nnode:  "@ =~= seq!['\n'] + "node:  "@);
    assert("\n"@ =~= seq!['\n']);
    let head = app + "  "@ + datetime_text(ts_ms) + "  (capsule blob "@ + cid;
    let rest = stack_lines(stack);
    assert(index_only_text(app, ts_ms, cid, msg, node, stack) == head + (end + seq!['\n']
        + "what:  "@) + msg + (seq!['\n'] + "node:  "@) + node + seq!['\n'] + rest);
    joined_the_same(head, end, "what:  "@, msg, "node:  "@, node, rest);
}

proof fn joined_the_same(
    head: Seq<char>,
    end: Seq<char>,
    what: Seq<char>,
    msg: Seq<char>,
    place: Seq<char>,
    node: Seq<char>,
    rest: Seq<char>,
)
    ensures
        head + (end + seq!['\n'] + what) + msg + (seq!['\n'] + place) + node + seq!['\n'] + rest == (
        head + end).push('\n') + (what + msg + seq!['\n'] + (place + node + seq!['\n']) + rest),
{
    assert(head + (end + seq!['\n'] + what) + msg + (seq!['\n'] + place) + node + seq!['\n'] + rest
        =~= (head + end).push('\n') + (what + msg + seq!['\n'] + (place + node + seq!['\n'])
        + rest));
}

#[verifier::spinoff_prover]
proof fn index_blocks_are_blocks(msg: Seq<char>, node: Seq<char>, stack: Option<Seq<char>>)
    requires
        !msg.contains('\n') && !node.contains('\n'),
    ensures
        are_blocks(index_blocks(msg, node, stack)),
        are_lines(lines_of(index_blocks(msg, node, stack))),
        ended(lines_of(index_blocks(msg, node, stack))) == index_lines(msg, node, stack),
        lines_of(index_blocks(msg, node, stack)).len() == match stack {
            Some(stack) => 3 + lines(stack).len(),
            None => 2,
        },
{
    reveal_strlit("what:  ");
    reveal_strlit("node:  ");
    reveal_strlit("stack:");
    reveal_strlit("stack:\n");
    if let Some(s) = stack {
        lines_hold_no_line_feed(s);
    }
    let none = Seq::<Block>::empty();
    let a = label_block("what:  "@, Some(msg));
    let b = label_block("node:  "@, Some(node));
    let c = list_block("stack:"@, Seq::empty(), stack_of(stack));
    label_lines("what:  "@, Some(msg));
    label_lines("node:  "@, Some(node));
    list_lines("stack:"@, Seq::empty(), stack_of(stack));
    assert(lines_of(none) =~= Seq::<Seq<char>>::empty());
    lines_of_one_more(none, a);
    lines_of_one_more(none.push(a), b);
    lines_of_one_more(none.push(a).push(b), c);
    let blocks = index_blocks(msg, node, stack);
    assert(none.push(a).push(b).push(c) =~= blocks);
    assert((("stack:"@ + Seq::<char>::empty()).push('\n')) =~= "stack:\n"@);
    assert(ended(c.lines) =~= stack_lines(stack));
    assert(ended(lines_of(none)) =~= Seq::<char>::empty());
    assert(ended(lines_of(none)) + ended(a.lines) =~= ended(a.lines));
    assert(blocks[0] == a && blocks[1] == b && blocks[2] == c);
    assert(differ(a.label, b.label) && differ(b.label, a.label));
    assert(differ(a.label, c.label) && differ(c.label, a.label));
    assert(differ(b.label, c.label) && differ(c.label, b.label));
}

/// Without its capsule a crash is still told by its event, and that reads back: the first line
/// names the app, the moment and the capsule that cannot be had, and the others what happened, on
/// which node, and every line of the stack if the event carries one.
#[verifier::spinoff_prover]
pub proof fn an_index_report_reads_back(
    app: Seq<char>,
    ts_ms: int,
    cid: Seq<char>,
    msg: Seq<char>,
    node: Seq<char>,
    stack: Option<Seq<char>>,
)
    requires
        !app.contains('\n') && !cid.contains('\n') && !msg.contains('\n') && !node.contains(
            '\n',
        ),
    ensures
        ({
            let report = index_only_text(app, ts_ms, cid, msg, node, stack);
            let head = parted(report)[0];
            &&& (app + "  "@ + datetime_text(ts_ms) + "  ("@).is_prefix_of(head)
            &&& part_of(" "@ + cid + " "@, head)
            &&& told(report, "what:  "@) == Some(msg)
            &&& told(report, "node:  "@) == Some(node)
            &&& told(report, "stack:"@) is Some <==> stack is Some
            &&& listed(report, "stack:"@) == match stack {
                Some(stack) => lines(stack),
                None => Seq::empty(),
            }
            &&& parted(report).len() == match stack {
                Some(stack) => 5 + lines(stack).len(),
                None => 4,
            }
        }),
{
    let report = index_only_text(app, ts_ms, cid, msg, node, stack);
    let head = index_heading(app, ts_ms, cid);
    let blocks = index_blocks(msg, node, stack);
    an_index_report_is_its_blocks(app, ts_ms, cid, msg, node, stack);
    a_report_tells_its_blocks(report, head, blocks, 0);
    a_report_tells_its_blocks(report, head, blocks, 1);
    a_report_tells_its_blocks(report, head, blocks, 2);
    what_a_label_says("what:  "@, Some(msg));
    what_a_label_says("node:  "@, Some(node));
    if let Some(s) = stack {
        lines_hold_no_line_feed(s);
    }
    reveal_strlit("stack:");
    list_lines("stack:"@, Seq::empty(), stack_of(stack));
    reveal_strlit("  (");
    reveal_strlit(" ");
    reveal_strlit("  (capsule blob ");
    reveal_strlit(" not fetchable — index event only)");
    let start = app + "  "@ + datetime_text(ts_ms) + "  ("@;
    assert(head.subrange(0, start.len() as int) =~= start);
    let at = start.len() as int + 12;
    assert(head.subrange(at, at + cid.len() + 2) =~= " "@ + cid + " "@);
    index_blocks_are_blocks(msg, node, stack);
}

/// Nothing is left out of what an event tells, whatever its texts hold: the report starts with the
/// app and the moment, names the capsule, then says what happened and on which node, and ends with
/// the stack.
pub proof fn nothing_is_left_out_of_an_index_report(
    app: Seq<char>,
    ts_ms: int,
    cid: Seq<char>,
    msg: Seq<char>,
    node: Seq<char>,
    stack: Option<Seq<char>>,
)
    ensures
        ({
            let report = index_only_text(app, ts_ms, cid, msg, node, stack);
            &&& (app + "  "@ + datetime_text(ts_ms) + "  (capsule blob "@ + cid).is_prefix_of(report)
            &&& part_of("what:  "@ + msg + "\nnode:  "@ + node + "\n"@, report)
            &&& stack matches Some(stack) ==> ("stack:\n"@ + indented(lines(stack))).is_suffix_of(
                report,
            )
            &&& stack is None ==> (node + "\n"@).is_suffix_of(report)
        }),
{
    let report = index_only_text(app, ts_ms, cid, msg, node, stack);
    let start = app + "  "@ + datetime_text(ts_ms) + "  (capsule blob "@ + cid;
    let middle = " not fetchable — index event only)\nwhat:  "@;
    let end = stack_lines(stack);
    reveal_strlit("what:  ");
    reveal_strlit(" not fetchable — index event only)\nwhat:  ");
    assert(report == start + middle + msg + "\nnode:  "@ + node + "\n"@ + end);
    assert(report.subrange(0, start.len() as int) =~= start);
    let body = "what:  "@ + msg + "\nnode:  "@ + node + "\n"@;
    let at = start.len() + middle.len() - 7;
    assert(report.subrange(at, at + body.len()) =~= body);
    assert(report.subrange(report.len() - end.len(), report.len() as int) =~= end);
    if stack is None {
        let last = node + "\n"@;
        assert(report.subrange(report.len() - last.len(), report.len() as int) =~= last);
    }
}

/// Why an app crashed is told by the capsule where it could be had, under the id and on the node
/// that the event names, and else by the event: what it says happened, when, on which node, and its
/// stack.
pub proof fn a_crash_is_told_by_its_capsule_or_its_event(
    app: Seq<char>,
    event: Json,
    c: Capsule,
    cid: Seq<char>,
    node: Seq<char>,
    msg: Seq<char>,
    ts_ms: u64,
)
    requires
        event.member("fields"@).member("crash_cid"@) == Json::Text(cid),
        event.member("node"@) == Json::Text(node),
        event.member("msg"@) == Json::Text(msg),
        event.member("ts_ms"@) == Json::Int(ts_ms as int),
    ensures
        why_text(app, event, Some(c)) == capsule_text(c, cid, node),
        ({
            let report = why_text(app, event, None);
            &&& (app + "  "@ + datetime_text(ts_ms as int) + "  (capsule blob "@
                + cid).is_prefix_of(report)
            &&& part_of("what:  "@ + msg + "\nnode:  "@ + node + "\n"@, report)
            &&& event.member("stack"@) matches Json::Text(stack) ==> ("stack:\n"@ + indented(
                lines(stack),
            )).is_suffix_of(report)
        }),
{
    nothing_is_left_out_of_an_index_report(
        app,
        ts_ms as int,
        cid,
        msg,
        node,
        event.member("stack"@).text(),
    );
}

} // verus!
