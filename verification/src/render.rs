//! Capsules as people read them: what, when, where, and the evidence.

use crate::calendar::{
    clock_text, datetime_text, fmt_datetime, fmt_time, moments_on_one_line, texts_follow_moments,
    times_of_day_read_back, times_on_one_line,
};
use crate::paths::part_of;
use crate::capsule::{status_line, status_text, Capsule};
use crate::event::{number_at, read_number, read_text};
use crate::json::{document, documents, text_or, Json};
use crate::reading::{
    a_report_tells_its_blocks, are_blocks, are_lines, differ, ended, ended_adds_up, ended_one,
    blocks_stand_in_order, is_set_in, lines_of, lines_of_one_more, listed, place_of, told, Block,
};
use crate::seconds::{push_seconds, seconds_text, tenths};
use crate::text::{
    decimal, first_line, first_line_of, join, joined_on_one_line, lines, lines_hold_no_line_feed,
    numbers_are_told_apart, numerals_on_one_line, pad_right, padding_right_keeps_the_text, parted,
    push_decimal, push_joined, push_padded_right, signed_decimal, split_lines, text_of, texts,
    the_first_line_comes_first, together_on_one_line,
};
use serde_json::Value;
use vstd::prelude::*;

verus! {

/// A line that says `s` under `label`; nothing where `s` is empty.
pub open spec fn labelled(label: Seq<char>, s: Seq<char>) -> Seq<char> {
    if s.len() == 0 {
        Seq::empty()
    } else {
        label + s + "\n"@
    }
}

/// Each of `all` as a line of its own, set in by two spaces.
pub open spec fn indented(all: Seq<Seq<char>>) -> Seq<char>
    decreases all.len(),
{
    if all.len() == 0 {
        Seq::empty()
    } else {
        indented(all.drop_last()) + "  "@ + all.last() + "\n"@
    }
}

/// What died, when and how.
pub open spec fn heading(c: Capsule) -> Seq<char> {
    c.app@ + "  "@ + datetime_text(c.ts_ms as int) + "  ("@ + status_text(
        c.signal,
        c.exit_code,
        c.exit_kind@,
    ) + ")\n"@
}

/// What happened.
pub open spec fn what(c: Capsule) -> Seq<char> {
    "what:     "@ + (match c.exc_type {
        Some(t) => t@ + " — "@,
        None => Seq::empty(),
    }) + c.msg@ + "\n"@
}

/// The node: the one given, or else the one that the capsule names.
pub open spec fn node_of(c: Capsule, node: Seq<char>) -> Seq<char> {
    if node.len() == 0 {
        c.node@
    } else {
        node
    }
}

/// The command line.
pub open spec fn argv_line(c: Capsule) -> Seq<char> {
    if c.argv@.len() == 0 {
        Seq::empty()
    } else {
        "argv:     "@ + join(texts(c.argv@), " "@) + "\n"@
    }
}

/// The interpreter.
pub open spec fn python_line(c: Capsule) -> Seq<char> {
    match c.python {
        Some(py) => "python:   "@ + first_line(py@) + "\n"@,
        None => Seq::empty(),
    }
}

/// How long the process lived, from `start` to `end`: no time where `end` is the earlier one.
pub open spec fn lifetime_ms(start: int, end: int) -> int {
    if end >= start {
        end - start
    } else {
        0
    }
}

/// How long the process lived.
pub open spec fn lifetime_line(c: Capsule) -> Seq<char> {
    match c.start_ts_ms {
        Some(start) => "lifetime: "@ + seconds_text(
            lifetime_ms(start as int, c.ts_ms as int),
        ) + "s (started "@ + datetime_text(start as int) + ")\n"@,
        None => Seq::empty(),
    }
}

/// The stack trace.
pub open spec fn stack_lines(stack: Option<Seq<char>>) -> Seq<char> {
    match stack {
        Some(stack) => "stack:\n"@ + indented(lines(stack)),
        None => Seq::empty(),
    }
}

/// The last lines of stderr.
pub open spec fn stderr_lines(c: Capsule) -> Seq<char> {
    if c.stderr_tail@.len() == 0 {
        Seq::empty()
    } else {
        "stderr tail (last "@ + decimal(c.stderr_tail@.len()) + " lines):\n"@ + indented(
            texts(c.stderr_tail@),
        )
    }
}

/// One event that the process buffered: the time of day, the level and the message.
pub open spec fn event_text(ts_ms: int, level: Seq<char>, msg: Seq<char>) -> Seq<char> {
    clock_text(ts_ms / 1000) + "  "@ + pad_right(level, ' ', 5) + " "@ + msg
}

/// One event that the process buffered. Without a level it is marked with a question mark.
pub open spec fn recent_text(event: Json) -> Seq<char> {
    event_text(
        number_at(event, "ts_ms"@),
        text_or(event.member("level"@).text(), "?"@),
        text_or(event.member("msg"@).text(), ""@),
    )
}

/// The last events that the process buffered.
pub open spec fn recent_lines(c: Capsule) -> Seq<char> {
    if c.recent@.len() == 0 {
        Seq::empty()
    } else {
        "recent events ("@ + decimal(c.recent@.len()) + " buffered before death):\n"@ + indented(
            documents(c.recent@).map_values(|event: Json| recent_text(event)),
        )
    }
}

/// How many environment variables there were.
pub open spec fn env_line(c: Capsule) -> Seq<char> {
    "env:      "@ + decimal(c.env_keys@.len()) + " variables (names recorded, values never)\n"@
}

/// The capsule `c`, which is stored under `cid`, as people read it; `node` is where the crash was
/// seen, if that is known.
pub open spec fn capsule_text(c: Capsule, cid: Seq<char>, node: Seq<char>) -> Seq<char> {
    heading(c) + what(c) + labelled("node:     "@, node_of(c, node)) + labelled(
        "cwd:      "@,
        c.cwd@,
    ) + argv_line(c) + labelled("platform: "@, c.platform@) + python_line(c) + lifetime_line(c)
        + stack_lines(text_of(c.stack)) + stderr_lines(c) + recent_lines(c) + env_line(c) + (
    "capsule:  "@ + cid + "\n"@)
}

/// Appends a line that says `s` under `label`; nothing where `s` is empty.
fn push_labelled(out: &mut String, label: &str, s: &str)
    ensures
        final(out)@ == old(out)@ + labelled(label@, s@),
{
    let ghost before = out@;
    if !s.is_empty() {
        out.append(label);
        out.append(s);
        out.append("\n");
    }
    assert(out@ =~= before + labelled(label@, s@));
}

/// Appends each of `all` as a line of its own, set in by two spaces.
pub(crate) fn push_indented(out: &mut String, all: &Vec<String>)
    ensures
        final(out)@ == old(out)@ + indented(texts(all@)),
{
    let ghost before = out@;
    let ghost views = texts(all@);
    let mut i: usize = 0;
    assert(out@ =~= before + indented(views.take(0)));
    while i < all.len()
        invariant
            i <= all@.len(),
            views == texts(all@),
            out@ == before + indented(views.take(i as int)),
        decreases all@.len() - i,
    {
        out.append("  ");
        out.append(all[i].as_str());
        out.append("\n");
        proof {
            assert(views.take(i + 1).drop_last() =~= views.take(i as int));
            assert(views.take(i + 1).last() == all@[i as int]@);
            assert(out@ =~= before + indented(views.take(i + 1)));
        }
        i += 1;
    }
    assert(views.take(i as int) =~= views);
}

fn push_heading(out: &mut String, c: &Capsule)
    ensures
        final(out)@ == old(out)@ + heading(*c),
{
    let ghost before = out@;
    out.append(c.app.as_str());
    out.append("  ");
    out.append(fmt_datetime(c.ts_ms).as_str());
    out.append("  (");
    out.append(status_line(c.signal, c.exit_code, c.exit_kind.as_str()).as_str());
    out.append(")\n");
    assert(out@ =~= before + heading(*c));
}

fn push_what(out: &mut String, c: &Capsule)
    ensures
        final(out)@ == old(out)@ + what(*c),
{
    let ghost before = out@;
    out.append("what:     ");
    if let Some(t) = &c.exc_type {
        out.append(t.as_str());
        out.append(" — ");
    }
    out.append(c.msg.as_str());
    out.append("\n");
    assert(out@ =~= before + what(*c));
}

fn push_argv(out: &mut String, c: &Capsule)
    ensures
        final(out)@ == old(out)@ + argv_line(*c),
{
    let ghost before = out@;
    if c.argv.len() > 0 {
        out.append("argv:     ");
        push_joined(out, &c.argv, " ");
        out.append("\n");
    }
    assert(out@ =~= before + argv_line(*c));
}

fn push_python(out: &mut String, c: &Capsule)
    ensures
        final(out)@ == old(out)@ + python_line(*c),
{
    let ghost before = out@;
    if let Some(py) = &c.python {
        out.append("python:   ");
        out.append(first_line_of(py.as_str()).as_str());
        out.append("\n");
    }
    assert(out@ =~= before + python_line(*c));
}

fn push_lifetime(out: &mut String, c: &Capsule)
    ensures
        final(out)@ == old(out)@ + lifetime_line(*c),
{
    let ghost before = out@;
    if let Some(start) = c.start_ts_ms {
        out.append("lifetime: ");
        push_seconds(out, c.ts_ms.saturating_sub(start));
        out.append("s (started ");
        out.append(fmt_datetime(start).as_str());
        out.append(")\n");
    }
    assert(out@ =~= before + lifetime_line(*c));
}

pub(crate) fn push_stack(out: &mut String, stack: &Option<String>)
    ensures
        final(out)@ == old(out)@ + stack_lines(text_of(*stack)),
{
    let ghost before = out@;
    if let Some(stack) = stack {
        out.append("stack:\n");
        push_indented(out, &split_lines(stack.as_str()));
    }
    assert(out@ =~= before + stack_lines(text_of(*stack)));
}

fn push_stderr(out: &mut String, c: &Capsule)
    ensures
        final(out)@ == old(out)@ + stderr_lines(*c),
{
    let ghost before = out@;
    if c.stderr_tail.len() > 0 {
        out.append("stderr tail (last ");
        push_decimal(out, c.stderr_tail.len() as u64);
        out.append(" lines):\n");
        push_indented(out, &c.stderr_tail);
    }
    assert(out@ =~= before + stderr_lines(*c));
}

/// One event that a process buffered: the time of day, the level and the message.
pub fn render_event(ts_ms: u64, level: &str, msg: &str) -> (r: String)
    ensures
        r@ == event_text(ts_ms as int, level@, msg@),
{
    let mut out = fmt_time(ts_ms);
    out.append("  ");
    push_padded_right(&mut out, level, ' ', 5);
    out.append(" ");
    out.append(msg);
    out
}

/// One event that a process buffered, as it reads in the report of its crash.
pub fn render_recent(event: &Value) -> (r: String)
    ensures
        r@ == recent_text(document(*event)),
{
    let ts_ms: u64 = read_number(event, "ts_ms");
    let level = read_text(event, "level", "?");
    let msg = read_text(event, "msg", "");
    render_event(ts_ms, level.as_str(), msg.as_str())
}

fn push_recent(out: &mut String, c: &Capsule)
    ensures
        final(out)@ == old(out)@ + recent_lines(*c),
{
    let ghost before = out@;
    if c.recent.len() > 0 {
        out.append("recent events (");
        push_decimal(out, c.recent.len() as u64);
        out.append(" buffered before death):\n");
        let ghost wanted = documents(c.recent@).map_values(|event: Json| recent_text(event));
        let mut all: Vec<String> = Vec::new();
        let mut i: usize = 0;
        while i < c.recent.len()
            invariant
                i <= c.recent@.len(),
                wanted == documents(c.recent@).map_values(|event: Json| recent_text(event)),
                texts(all@) =~= wanted.take(i as int),
            decreases c.recent@.len() - i,
        {
            let event = render_recent(&c.recent[i]);
            assert(event@ == wanted[i as int]);
            assert(texts(all@.push(event)) =~= texts(all@).push(event@));
            all.push(event);
            i += 1;
        }
        assert(wanted.take(i as int) =~= wanted);
        push_indented(out, &all);
    }
    assert(out@ =~= before + recent_lines(*c));
}

fn push_env(out: &mut String, c: &Capsule)
    ensures
        final(out)@ == old(out)@ + env_line(*c),
{
    let ghost before = out@;
    out.append("env:      ");
    push_decimal(out, c.env_keys.len() as u64);
    out.append(" variables (names recorded, values never)\n");
    assert(out@ =~= before + env_line(*c));
}

/// A capsule for people: what, when, where, and the evidence.
pub fn render_capsule(c: &Capsule, cid: &str, node: &str) -> (r: String)
    ensures
        r@ == capsule_text(*c, cid@, node@),
{
    let mut out = String::new();
    push_heading(&mut out, c);
    assert(out@ =~= heading(*c));
    push_what(&mut out, c);
    if node.is_empty() {
        push_labelled(&mut out, "node:     ", c.node.as_str());
    } else {
        push_labelled(&mut out, "node:     ", node);
    }
    push_labelled(&mut out, "cwd:      ", c.cwd.as_str());
    push_argv(&mut out, c);
    push_labelled(&mut out, "platform: ", c.platform.as_str());
    push_python(&mut out, c);
    push_lifetime(&mut out, c);
    push_stack(&mut out, &c.stack);
    push_stderr(&mut out, c);
    push_recent(&mut out, c);
    push_env(&mut out, c);
    let ghost before = out@;
    out.append("capsule:  ");
    out.append(cid);
    out.append("\n");
    assert(out@ =~= before + ("capsule:  "@ + cid@ + "\n"@));
    out
}

// ---- laws ----

/// The lines that are set in by two spaces.
pub(crate) open spec fn set_in(all: Seq<Seq<char>>) -> Seq<Seq<char>> {
    all.map_values(|line: Seq<char>| "  "@ + line)
}

proof fn indented_lines(all: Seq<Seq<char>>)
    ensures
        indented(all) == ended(set_in(all)),
    decreases all.len(),
{
    reveal_strlit("\n");
    if all.len() == 0 {
        assert(indented(all) =~= ended(set_in(all)));
    } else {
        indented_lines(all.drop_last());
        assert(set_in(all).drop_last() =~= set_in(all.drop_last()));
        assert(set_in(all).last() == "  "@ + all.last());
        assert(indented(all) =~= ended(set_in(all)));
    }
}

/// A heading line with lines set in below it.
pub(crate) open spec fn listing(first: Seq<char>, all: Seq<Seq<char>>) -> Seq<Seq<char>> {
    seq![first] + set_in(all)
}

proof fn listing_lines(first: Seq<char>, all: Seq<Seq<char>>)
    requires
        !first.contains('\n'),
        are_lines(all),
    ensures
        ended(listing(first, all)) == first.push('\n') + indented(all),
        are_lines(listing(first, all)),
        forall|i: int|
            1 <= i < listing(first, all).len() ==> is_set_in(#[trigger] listing(first, all)[i]),
        listing(first, all).skip(1).map_values(|line: Seq<char>| line.skip(2)) == all,
{
    reveal_strlit("  ");
    indented_lines(all);
    ended_adds_up(seq![first], set_in(all));
    ended_one(first);
    let lines = listing(first, all);
    assert forall|i: int| 0 <= i < lines.len() implies !(#[trigger] lines[i]).contains('\n') by {
        if i > 0 {
            assert(lines[i] == "  "@ + all[i - 1]);
            together_on_one_line("  "@, all[i - 1]);
        }
    }
    let cut = lines.skip(1).map_values(|line: Seq<char>| line.skip(2));
    assert forall|i: int| 0 <= i < all.len() implies cut[i] == all[i] by {
        assert(lines.skip(1)[i] == "  "@ + all[i]);
        assert(("  "@ + all[i]).skip(2) =~= all[i]);
    }
    assert(cut =~= all);
}

/// One line that starts with `label`, where there is something to say.
pub(crate) open spec fn label_block(label: Seq<char>, says: Option<Seq<char>>) -> Block {
    Block {
        label,
        lines: match says {
            Some(s) => seq![label + s],
            None => Seq::empty(),
        },
    }
}

pub(crate) proof fn label_lines(label: Seq<char>, says: Option<Seq<char>>)
    requires
        label.len() >= 3,
        label[0] != ' ',
        !label.contains('\n'),
        says matches Some(s) ==> !s.contains('\n'),
    ensures
        label_block(label, says).well_formed(),
        are_lines(label_block(label, says).lines),
        ended(label_block(label, says).lines) == match says {
            Some(s) => label + s + seq!['\n'],
            None => Seq::empty(),
        },
        says matches Some(s) ==> (label + s).skip(label.len() as int) == s,
{
    if let Some(s) = says {
        ended_one(label + s);
        together_on_one_line(label, s);
        assert((label + s).subrange(0, label.len() as int) =~= label);
        assert((label + s).skip(label.len() as int) =~= s);
        assert((label + s).push('\n') =~= label + s + seq!['\n']);
    }
}

/// A heading line that starts with `label`, with lines set in below it, where there is something to
/// list.
pub(crate) open spec fn list_block(label: Seq<char>, says: Seq<char>, all: Option<Seq<Seq<char>>>) -> Block {
    Block {
        label,
        lines: match all {
            Some(all) => listing(label + says, all),
            None => Seq::empty(),
        },
    }
}

pub(crate) proof fn list_lines(label: Seq<char>, says: Seq<char>, all: Option<Seq<Seq<char>>>)
    requires
        label.len() >= 3,
        label[0] != ' ',
        !label.contains('\n'),
        !says.contains('\n'),
        all matches Some(all) ==> are_lines(all),
    ensures
        list_block(label, says, all).well_formed(),
        are_lines(list_block(label, says, all).lines),
        ended(list_block(label, says, all).lines) == match all {
            Some(all) => (label + says).push('\n') + indented(all),
            None => Seq::empty(),
        },
        (label + says).skip(label.len() as int) == says,
        all matches Some(all) ==> list_block(label, says, Some(all)).lines.skip(1).map_values(
            |line: Seq<char>| line.skip(2),
        ) == all,
{
    assert((label + says).skip(label.len() as int) =~= says);
    if let Some(all) = all {
        together_on_one_line(label, says);
        listing_lines(label + says, all);
        assert((label + says).subrange(0, label.len() as int) =~= label);
    }
}

/// `s`, where it is not empty.
pub open spec fn unless_empty(s: Seq<char>) -> Option<Seq<char>> {
    if s.len() == 0 {
        None
    } else {
        Some(s)
    }
}

/// Whether what a capsule holds is on lines of its own: no text in it holds a line feed, save for
/// the stack and the version of the interpreter.
pub open spec fn is_in_lines(c: Capsule) -> bool {
    &&& !c.app@.contains('\n') && !c.node@.contains('\n') && !c.exit_kind@.contains('\n')
    &&& !c.msg@.contains('\n') && !c.platform@.contains('\n') && !c.cwd@.contains('\n')
    &&& c.exc_type matches Some(class) ==> !class@.contains('\n')
    &&& are_lines(texts(c.argv@))
    &&& are_lines(texts(c.stderr_tail@))
    &&& forall|i: int|
        0 <= i < c.recent@.len() ==> {
            &&& !text_or(document(#[trigger] c.recent@[i]).member("level"@).text(), "?"@).contains(
                '\n',
            )
            &&& !text_or(document(c.recent@[i]).member("msg"@).text(), ""@).contains('\n')
        }
}

/// What a report says of the cause of a crash.
spec fn said_cause(c: Capsule) -> Seq<char> {
    match c.exc_type {
        Some(class) => class@ + " — "@ + c.msg@,
        None => c.msg@,
    }
}

/// What a report says of the lifetime of a process.
spec fn said_lifetime(c: Capsule) -> Option<Seq<char>> {
    match c.start_ts_ms {
        Some(start) => Some(
            seconds_text(lifetime_ms(start as int, c.ts_ms as int)) + "s (started "@
                + datetime_text(start as int) + ")"@,
        ),
        None => None,
    }
}

spec fn said_argv(c: Capsule) -> Option<Seq<char>> {
    if c.argv@.len() == 0 {
        None
    } else {
        Some(join(texts(c.argv@), " "@))
    }
}

spec fn said_python(c: Capsule) -> Option<Seq<char>> {
    match c.python {
        Some(py) => Some(first_line(py@)),
        None => None,
    }
}

spec fn said_env(c: Capsule) -> Seq<char> {
    decimal(c.env_keys@.len()) + " variables (names recorded, values never)"@
}

spec fn said_heading(c: Capsule) -> Seq<char> {
    c.app@ + "  "@ + datetime_text(c.ts_ms as int) + "  ("@ + status_text(
        c.signal,
        c.exit_code,
        c.exit_kind@,
    ) + ")"@
}

spec fn listed_stack(c: Capsule) -> Option<Seq<Seq<char>>> {
    match c.stack {
        Some(stack) => Some(lines(stack@)),
        None => None,
    }
}

spec fn listed_stderr(c: Capsule) -> Option<Seq<Seq<char>>> {
    if c.stderr_tail@.len() == 0 {
        None
    } else {
        Some(texts(c.stderr_tail@))
    }
}

spec fn listed_recent(c: Capsule) -> Option<Seq<Seq<char>>> {
    if c.recent@.len() == 0 {
        None
    } else {
        Some(documents(c.recent@).map_values(|event: Json| recent_text(event)))
    }
}

#[verifier::opaque]
spec fn block_of(c: Capsule, cid: Seq<char>, node: Seq<char>, i: int) -> Block {
    if i == 0 {
        label_block("what:     "@, Some(said_cause(c)))
    } else if i == 1 {
        label_block("node:     "@, unless_empty(node_of(c, node)))
    } else if i == 2 {
        label_block("cwd:      "@, unless_empty(c.cwd@))
    } else if i == 3 {
        label_block("argv:     "@, said_argv(c))
    } else if i == 4 {
        label_block("platform: "@, unless_empty(c.platform@))
    } else if i == 5 {
        label_block("python:   "@, said_python(c))
    } else if i == 6 {
        label_block("lifetime: "@, said_lifetime(c))
    } else if i == 7 {
        list_block("stack:"@, Seq::empty(), listed_stack(c))
    } else if i == 8 {
        list_block(
            "stderr tail (last "@,
            decimal(c.stderr_tail@.len()) + " lines):"@,
            listed_stderr(c),
        )
    } else if i == 9 {
        list_block(
            "recent events ("@,
            decimal(c.recent@.len()) + " buffered before death):"@,
            listed_recent(c),
        )
    } else if i == 10 {
        label_block("env:      "@, Some(said_env(c)))
    } else {
        label_block("capsule:  "@, Some(cid))
    }
}

spec fn blocks_of(c: Capsule, cid: Seq<char>, node: Seq<char>, n: int) -> Seq<Block> {
    Seq::new(n as nat, |i: int| block_of(c, cid, node, i))
}

/// The first three characters of each label.
spec fn label_start(i: int) -> (int, int, int) {
    if i == 0 {
        (119int, 104int, 97int)
    } else if i == 1 {
        (110int, 111int, 100int)
    } else if i == 2 {
        (99int, 119int, 100int)
    } else if i == 3 {
        (97int, 114int, 103int)
    } else if i == 4 {
        (112int, 108int, 97int)
    } else if i == 5 {
        (112int, 121int, 116int)
    } else if i == 6 {
        (108int, 105int, 102int)
    } else if i == 7 {
        (115int, 116int, 97int)
    } else if i == 8 {
        (115int, 116int, 100int)
    } else if i == 9 {
        (114int, 101int, 99int)
    } else if i == 10 {
        (101int, 110int, 118int)
    } else if i == 11 {
        (99int, 97int, 112int)
    } else {
        (0, 0, 0)
    }
}

proof fn labels_start_apart(c: Capsule, cid: Seq<char>, node: Seq<char>, i: int)
    requires
        0 <= i < 12,
    ensures
        ({
            let label = block_of(c, cid, node, i).label;
            &&& label.len() >= 3
            &&& (label[0] as int, label[1] as int, label[2] as int) == label_start(i)
            &&& !label.contains('\n')
        }),
{
    reveal(block_of);
    reveal_strlit("what:     ");
    reveal_strlit("node:     ");
    reveal_strlit("cwd:      ");
    reveal_strlit("argv:     ");
    reveal_strlit("platform: ");
    reveal_strlit("python:   ");
    reveal_strlit("lifetime: ");
    reveal_strlit("stack:");
    reveal_strlit("stderr tail (last ");
    reveal_strlit("recent events (");
    reveal_strlit("env:      ");
    reveal_strlit("capsule:  ");
}

#[verifier::spinoff_prover]
proof fn texts_said_are_lines(c: Capsule)
    requires
        is_in_lines(c),
    ensures
        !said_cause(c).contains('\n'),
        said_argv(c) matches Some(s) ==> !s.contains('\n'),
        said_python(c) matches Some(s) ==> !s.contains('\n'),
        said_lifetime(c) matches Some(s) ==> !s.contains('\n'),
        !said_env(c).contains('\n'),
        !said_heading(c).contains('\n'),
{
    reveal_strlit(" — ");
    reveal_strlit(" ");
    reveal_strlit("  ");
    reveal_strlit("  (");
    reveal_strlit(")");
    reveal_strlit("s (started ");
    reveal_strlit(".");
    reveal_strlit(" variables (names recorded, values never)");
    if let Some(class) = c.exc_type {
        together_on_one_line(class@, " — "@);
        together_on_one_line(class@ + " — "@, c.msg@);
    }
    joined_on_one_line(texts(c.argv@), " "@);
    if let Some(py) = c.python {
        the_first_line_comes_first(Seq::empty(), py@);
    }
    if let Some(start) = c.start_ts_ms {
        let ms = lifetime_ms(start as int, c.ts_ms as int);
        let secs = decimal((tenths(ms) / 10) as nat);
        numerals_on_one_line((tenths(ms) / 10) as nat, 0);
        numerals_on_one_line((tenths(ms) % 10) as nat, 0);
        together_on_one_line(secs, "."@);
        together_on_one_line(secs + "."@, decimal((tenths(ms) % 10) as nat));
        moments_on_one_line(start as int);
        together_on_one_line(seconds_text(ms), "s (started "@);
        together_on_one_line(seconds_text(ms) + "s (started "@, datetime_text(start as int));
        together_on_one_line(
            seconds_text(ms) + "s (started "@ + datetime_text(start as int),
            ")"@,
        );
    }
    numerals_on_one_line(c.env_keys@.len(), 0);
    together_on_one_line(
        decimal(c.env_keys@.len()),
        " variables (names recorded, values never)"@,
    );
    let status = status_text(c.signal, c.exit_code, c.exit_kind@);
    assert(!status.contains('\n')) by {
        reveal_strlit("killed by signal ");
        reveal_strlit("exit code ");
        if let Some(s) = c.signal {
            numbers_are_told_apart(s as int, 0);
            together_on_one_line("killed by signal "@, signed_decimal(s as int));
        } else if let Some(code) = c.exit_code {
            numbers_are_told_apart(code as int, 0);
            together_on_one_line("exit code "@, signed_decimal(code as int));
        }
    }
    let when = datetime_text(c.ts_ms as int);
    moments_on_one_line(c.ts_ms as int);
    together_on_one_line(c.app@, "  "@);
    together_on_one_line(c.app@ + "  "@, when);
    together_on_one_line(c.app@ + "  "@ + when, "  ("@);
    together_on_one_line(c.app@ + "  "@ + when + "  ("@, status);
    together_on_one_line(c.app@ + "  "@ + when + "  ("@ + status, ")"@);
}

proof fn texts_listed_are_lines(c: Capsule)
    requires
        is_in_lines(c),
    ensures
        listed_stack(c) matches Some(all) ==> are_lines(all),
        listed_stderr(c) matches Some(all) ==> are_lines(all),
        listed_recent(c) matches Some(all) ==> are_lines(all),
        !(decimal(c.stderr_tail@.len()) + " lines):"@).contains('\n'),
        !(decimal(c.recent@.len()) + " buffered before death):"@).contains('\n'),
{
    reveal_strlit(" lines):");
    reveal_strlit(" buffered before death):");
    reveal_strlit("  ");
    reveal_strlit(" ");
    numerals_on_one_line(c.stderr_tail@.len(), 0);
    together_on_one_line(decimal(c.stderr_tail@.len()), " lines):"@);
    numerals_on_one_line(c.recent@.len(), 0);
    together_on_one_line(decimal(c.recent@.len()), " buffered before death):"@);
    if let Some(stack) = c.stack {
        lines_hold_no_line_feed(stack@);
    }
    if let Some(all) = listed_recent(c) {
        assert forall|i: int| 0 <= i < all.len() implies !(#[trigger] all[i]).contains('\n') by {
            let event = document(c.recent@[i]);
            let level = text_or(event.member("level"@).text(), "?"@);
            let msg = text_or(event.member("msg"@).text(), ""@);
            let time = clock_text(number_at(event, "ts_ms"@) / 1000);
            let wide = pad_right(level, ' ', 5);
            assert(all[i] == recent_text(event));
            times_on_one_line(number_at(event, "ts_ms"@) / 1000);
            assert(!wide.contains('\n')) by {
                assert forall|k: int| 0 <= k < wide.len() implies wide[k] != '\n' by {
                    if k < level.len() {
                        assert(level.contains(wide[k]));
                    }
                }
            }
            together_on_one_line(time, "  "@);
            together_on_one_line(time + "  "@, wide);
            together_on_one_line(time + "  "@ + wide, " "@);
            together_on_one_line(time + "  "@ + wide + " "@, msg);
        }
    }
}

/// The text of the block with the number `i`.
spec fn piece_of(c: Capsule, cid: Seq<char>, node: Seq<char>, i: int) -> Seq<char> {
    if i == 0 {
        what(c)
    } else if i == 1 {
        labelled("node:     "@, node_of(c, node))
    } else if i == 2 {
        labelled("cwd:      "@, c.cwd@)
    } else if i == 3 {
        argv_line(c)
    } else if i == 4 {
        labelled("platform: "@, c.platform@)
    } else if i == 5 {
        python_line(c)
    } else if i == 6 {
        lifetime_line(c)
    } else if i == 7 {
        stack_lines(text_of(c.stack))
    } else if i == 8 {
        stderr_lines(c)
    } else if i == 9 {
        recent_lines(c)
    } else if i == 10 {
        env_line(c)
    } else {
        "capsule:  "@ + cid + "\n"@
    }
}

#[verifier::spinoff_prover]
#[verifier::rlimit(60)]
proof fn a_piece_is_its_block(c: Capsule, cid: Seq<char>, node: Seq<char>, i: int)
    requires
        is_in_lines(c),
        !cid.contains('\n'),
        !node.contains('\n'),
        0 <= i < 12,
    ensures
        block_of(c, cid, node, i).well_formed(),
        are_lines(block_of(c, cid, node, i).lines),
        ended(block_of(c, cid, node, i).lines) == piece_of(c, cid, node, i),
{
    reveal(block_of);
    let block = block_of(c, cid, node, i);
    let piece = piece_of(c, cid, node, i);
    labels_start_apart(c, cid, node, i);
    texts_said_are_lines(c);
    texts_listed_are_lines(c);
    reveal_strlit("\n");
    assert("\n"@ =~= seq!['\n']);
    let label = block.label;
    if i == 0 {
        label_lines(label, Some(said_cause(c)));
        assert(ended(block.lines) =~= piece);
    } else if i == 1 {
        label_lines(label, unless_empty(node_of(c, node)));
        assert(ended(block.lines) =~= piece);
    } else if i == 2 {
        label_lines(label, unless_empty(c.cwd@));
        assert(ended(block.lines) =~= piece);
    } else if i == 3 {
        label_lines(label, said_argv(c));
        assert(ended(block.lines) =~= piece);
    } else if i == 4 {
        label_lines(label, unless_empty(c.platform@));
        assert(ended(block.lines) =~= piece);
    } else if i == 5 {
        label_lines(label, said_python(c));
        assert(ended(block.lines) =~= piece);
    } else if i == 6 {
        reveal_strlit(")\n");
        reveal_strlit(")");
        assert(")\n"@ =~= ")"@ + seq!['\n']);
        label_lines(label, said_lifetime(c));
        assert(ended(block.lines) =~= piece);
    } else if i == 7 {
        reveal_strlit("stack:\n");
        reveal_strlit("stack:");
        assert((label + Seq::<char>::empty()).push('\n') =~= "stack:\n"@);
        list_lines(label, Seq::empty(), listed_stack(c));
        assert(ended(block.lines) =~= piece);
    } else if i == 8 {
        reveal_strlit(" lines):\n");
        reveal_strlit(" lines):");
        assert(" lines):\n"@ =~= " lines):"@.push('\n'));
        list_lines(label, decimal(c.stderr_tail@.len()) + " lines):"@, listed_stderr(c));
        assert(ended(block.lines) =~= piece);
    } else if i == 9 {
        reveal_strlit(" buffered before death):\n");
        reveal_strlit(" buffered before death):");
        assert(" buffered before death):\n"@ =~= " buffered before death):"@.push('\n'));
        list_lines(
            label,
            decimal(c.recent@.len()) + " buffered before death):"@,
            listed_recent(c),
        );
        assert(ended(block.lines) =~= piece);
    } else if i == 10 {
        reveal_strlit(" variables (names recorded, values never)\n");
        reveal_strlit(" variables (names recorded, values never)");
        assert(" variables (names recorded, values never)\n"@
            =~= " variables (names recorded, values never)"@ + seq!['\n']);
        label_lines(label, Some(said_env(c)));
        assert(ended(block.lines) =~= piece);
    } else {
        label_lines(label, Some(cid));
        assert(ended(block.lines) =~= piece);
    }
}

/// The first `n` pieces of a report below its heading.
spec fn pieces_of(c: Capsule, cid: Seq<char>, node: Seq<char>, n: int) -> Seq<char>
    decreases n,
{
    if n <= 0 {
        Seq::empty()
    } else {
        pieces_of(c, cid, node, n - 1) + piece_of(c, cid, node, n - 1)
    }
}

proof fn pieces_are_their_blocks(c: Capsule, cid: Seq<char>, node: Seq<char>, n: int)
    requires
        is_in_lines(c),
        !cid.contains('\n'),
        !node.contains('\n'),
        0 <= n <= 12,
    ensures
        are_lines(lines_of(blocks_of(c, cid, node, n))),
        ended(lines_of(blocks_of(c, cid, node, n))) == pieces_of(c, cid, node, n),
    decreases n,
{
    let blocks = blocks_of(c, cid, node, n);
    if n == 0 {
        assert(lines_of(blocks) =~= Seq::<Seq<char>>::empty());
        assert(ended(lines_of(blocks)) =~= pieces_of(c, cid, node, n));
    } else {
        pieces_are_their_blocks(c, cid, node, n - 1);
        a_piece_is_its_block(c, cid, node, n - 1);
        let rest = blocks_of(c, cid, node, n - 1);
        let last = block_of(c, cid, node, n - 1);
        assert(rest.push(last) =~= blocks);
        lines_of_one_more(rest, last);
    }
}

proof fn one_piece_more(head: Seq<char>, c: Capsule, cid: Seq<char>, node: Seq<char>, n: int)
    requires
        0 <= n,
    ensures
        head + pieces_of(c, cid, node, n + 1) == head + pieces_of(c, cid, node, n) + piece_of(
            c,
            cid,
            node,
            n,
        ),
{
    assert(head + pieces_of(c, cid, node, n + 1) =~= head + pieces_of(c, cid, node, n) + piece_of(
        c,
        cid,
        node,
        n,
    ));
}

#[verifier::spinoff_prover]
proof fn a_report_is_its_pieces(c: Capsule, cid: Seq<char>, node: Seq<char>)
    ensures
        capsule_text(c, cid, node) == heading(c) + pieces_of(c, cid, node, 12),
{
    let head = heading(c);
    assert(head + pieces_of(c, cid, node, 0) =~= head);
    one_piece_more(head, c, cid, node, 0);
    one_piece_more(head, c, cid, node, 1);
    one_piece_more(head, c, cid, node, 2);
    one_piece_more(head, c, cid, node, 3);
    one_piece_more(head, c, cid, node, 4);
    one_piece_more(head, c, cid, node, 5);
    one_piece_more(head, c, cid, node, 6);
    one_piece_more(head, c, cid, node, 7);
    one_piece_more(head, c, cid, node, 8);
    one_piece_more(head, c, cid, node, 9);
    one_piece_more(head, c, cid, node, 10);
    one_piece_more(head, c, cid, node, 11);
}

proof fn a_report_is_its_blocks(c: Capsule, cid: Seq<char>, node: Seq<char>)
    requires
        is_in_lines(c),
        !cid.contains('\n'),
        !node.contains('\n'),
    ensures
        capsule_text(c, cid, node) == ended(
            seq![said_heading(c)] + lines_of(blocks_of(c, cid, node, 12)),
        ),
        !said_heading(c).contains('\n'),
        are_lines(lines_of(blocks_of(c, cid, node, 12))),
        are_blocks(blocks_of(c, cid, node, 12)),
{
    reveal_strlit(")\n");
    reveal_strlit(")");
    texts_said_are_lines(c);
    pieces_are_their_blocks(c, cid, node, 12);
    a_report_is_its_pieces(c, cid, node);
    let blocks = blocks_of(c, cid, node, 12);
    ended_adds_up(seq![said_heading(c)], lines_of(blocks));
    ended_one(said_heading(c));
    assert(heading(c) =~= said_heading(c).push('\n'));
    assert forall|i: int| 0 <= i < 12 implies (#[trigger] blocks[i]).well_formed() by {
        a_piece_is_its_block(c, cid, node, i);
    }
    assert forall|i: int, j: int| 0 <= i < 12 && 0 <= j < 12 && i != j implies differ(
        (#[trigger] blocks[i]).label,
        (#[trigger] blocks[j]).label,
    ) by {
        labels_start_apart(c, cid, node, i);
        labels_start_apart(c, cid, node, j);
    }
}

proof fn lines_are_counted(c: Capsule, cid: Seq<char>, node: Seq<char>, n: int)
    requires
        0 <= n < 12,
    ensures
        lines_of(blocks_of(c, cid, node, n + 1)).len() == lines_of(
            blocks_of(c, cid, node, n),
        ).len() + block_of(c, cid, node, n).lines.len(),
{
    let blocks = blocks_of(c, cid, node, n + 1);
    assert(blocks.drop_last() =~= blocks_of(c, cid, node, n));
    assert(blocks.last() == block_of(c, cid, node, n));
}

/// A report reads back. Its first line says what died, when and how. Under their labels the other
/// lines say what happened, where, and how long the process lived, each only where it is known; a
/// node that is given counts for more than the one in the capsule.
#[verifier::spinoff_prover]
pub proof fn a_report_reads_back(c: Capsule, cid: Seq<char>, node: Seq<char>)
    requires
        is_in_lines(c),
        !cid.contains('\n'),
        !node.contains('\n'),
    ensures
        ({
            let report = capsule_text(c, cid, node);
            &&& parted(report)[0] == c.app@ + "  "@ + datetime_text(c.ts_ms as int) + "  ("@
                + status_text(c.signal, c.exit_code, c.exit_kind@) + ")"@
            &&& told(report, "what:     "@) == Some(
                match c.exc_type {
                    Some(class) => class@ + " — "@ + c.msg@,
                    None => c.msg@,
                },
            )
            &&& told(report, "node:     "@) == if node.len() > 0 {
                Some(node)
            } else {
                unless_empty(c.node@)
            }
            &&& told(report, "cwd:      "@) == unless_empty(c.cwd@)
            &&& told(report, "argv:     "@) == if c.argv@.len() > 0 {
                Some(join(texts(c.argv@), " "@))
            } else {
                None
            }
            &&& told(report, "platform: "@) == unless_empty(c.platform@)
            &&& told(report, "python:   "@) == match c.python {
                Some(version) => Some(first_line(version@)),
                None => None,
            }
            &&& told(report, "lifetime: "@) is Some <==> c.start_ts_ms is Some
            &&& told(report, "env:      "@) == Some(
                decimal(c.env_keys@.len()) + " variables (names recorded, values never)"@,
            )
            &&& told(report, "capsule:  "@) == Some(cid)
        }),
{
    reveal(block_of);
    a_report_is_its_blocks(c, cid, node);
    texts_said_are_lines(c);
    let report = capsule_text(c, cid, node);
    let head = said_heading(c);
    let blocks = blocks_of(c, cid, node, 12);
    a_report_tells_its_blocks(report, head, blocks, 0);
    a_report_tells_its_blocks(report, head, blocks, 1);
    a_report_tells_its_blocks(report, head, blocks, 2);
    a_report_tells_its_blocks(report, head, blocks, 3);
    a_report_tells_its_blocks(report, head, blocks, 4);
    a_report_tells_its_blocks(report, head, blocks, 5);
    a_report_tells_its_blocks(report, head, blocks, 6);
    a_report_tells_its_blocks(report, head, blocks, 7);
    a_report_tells_its_blocks(report, head, blocks, 8);
    a_report_tells_its_blocks(report, head, blocks, 9);
    a_report_tells_its_blocks(report, head, blocks, 10);
    a_report_tells_its_blocks(report, head, blocks, 11);
    assert(parted(report)[0] == head);
    assert forall|i: int| 0 <= i < 12 implies #[trigger] blocks[i] == block_of(
        c,
        cid,
        node,
        i,
    ) by {}
    what_a_label_says("what:     "@, Some(said_cause(c)));
    what_a_label_says("node:     "@, unless_empty(node_of(c, node)));
    what_a_label_says("cwd:      "@, unless_empty(c.cwd@));
    what_a_label_says("argv:     "@, said_argv(c));
    what_a_label_says("platform: "@, unless_empty(c.platform@));
    what_a_label_says("python:   "@, said_python(c));
    what_a_label_says("lifetime: "@, said_lifetime(c));
    what_a_label_says("env:      "@, Some(said_env(c)));
    what_a_label_says("capsule:  "@, Some(cid));
}

pub(crate) proof fn what_a_label_says(label: Seq<char>, says: Option<Seq<char>>)
    ensures
        label_block(label, says).lines.len() == 0 <==> says is None,
        says matches Some(s) ==> label_block(label, says).lines[0].skip(label.len() as int) == s,
{
    if let Some(s) = says {
        assert((label + s).skip(label.len() as int) =~= s);
    }
}

/// The evidence is listed in full: the lines of the stack, the lines of stderr and the events that
/// were buffered, every one in its place and in order, below a line that counts them.
#[verifier::spinoff_prover]
pub proof fn the_evidence_is_listed(c: Capsule, cid: Seq<char>, node: Seq<char>)
    requires
        is_in_lines(c),
        !cid.contains('\n'),
        !node.contains('\n'),
    ensures
        ({
            let report = capsule_text(c, cid, node);
            &&& listed(report, "stack:"@) == match c.stack {
                Some(stack) => lines(stack@),
                None => Seq::empty(),
            }
            &&& told(report, "stack:"@) is Some <==> c.stack is Some
            &&& listed(report, "stderr tail (last "@) == texts(c.stderr_tail@)
            &&& told(report, "stderr tail (last "@) == if c.stderr_tail@.len() > 0 {
                Some(decimal(c.stderr_tail@.len()) + " lines):"@)
            } else {
                None
            }
            &&& listed(report, "recent events ("@).len() == c.recent@.len()
            &&& forall|i: int|
                0 <= i < c.recent@.len() ==> #[trigger] listed(report, "recent events ("@)[i]
                    == recent_text(document(c.recent@[i]))
            &&& told(report, "recent events ("@) == if c.recent@.len() > 0 {
                Some(decimal(c.recent@.len()) + " buffered before death):"@)
            } else {
                None
            }
        }),
{
    reveal(block_of);
    a_report_is_its_blocks(c, cid, node);
    texts_listed_are_lines(c);
    let report = capsule_text(c, cid, node);
    let head = said_heading(c);
    let blocks = blocks_of(c, cid, node, 12);
    a_report_tells_its_blocks(report, head, blocks, 7);
    a_report_tells_its_blocks(report, head, blocks, 8);
    a_report_tells_its_blocks(report, head, blocks, 9);
    labels_start_apart(c, cid, node, 7);
    labels_start_apart(c, cid, node, 8);
    labels_start_apart(c, cid, node, 9);
    assert(blocks[7] == block_of(c, cid, node, 7));
    assert(blocks[8] == block_of(c, cid, node, 8));
    assert(blocks[9] == block_of(c, cid, node, 9));
    list_lines("stack:"@, Seq::empty(), listed_stack(c));
    list_lines(
        "stderr tail (last "@,
        decimal(c.stderr_tail@.len()) + " lines):"@,
        listed_stderr(c),
    );
    list_lines(
        "recent events ("@,
        decimal(c.recent@.len()) + " buffered before death):"@,
        listed_recent(c),
    );
    if c.stderr_tail@.len() == 0 {
        assert(texts(c.stderr_tail@) =~= Seq::<Seq<char>>::empty());
    }
}

/// How many lines the block with the number `i` has.
spec fn line_count(c: Capsule, node: Seq<char>, i: int) -> int {
    let one = |there: bool| if there { 1int } else { 0int };
    if i == 1 {
        one(node.len() > 0 || c.node@.len() > 0)
    } else if i == 2 {
        one(c.cwd@.len() > 0)
    } else if i == 3 {
        one(c.argv@.len() > 0)
    } else if i == 4 {
        one(c.platform@.len() > 0)
    } else if i == 5 {
        one(c.python is Some)
    } else if i == 6 {
        one(c.start_ts_ms is Some)
    } else if i == 7 {
        match c.stack {
            Some(stack) => 1 + lines(stack@).len() as int,
            None => 0,
        }
    } else if i == 8 {
        one(c.stderr_tail@.len() > 0) + c.stderr_tail@.len()
    } else if i == 9 {
        one(c.recent@.len() > 0) + c.recent@.len()
    } else {
        1
    }
}

proof fn a_block_has_its_lines(c: Capsule, cid: Seq<char>, node: Seq<char>, i: int)
    requires
        0 <= i < 12,
    ensures
        block_of(c, cid, node, i).lines.len() == line_count(c, node, i),
{
    reveal(block_of);
}

/// A report has a line for each thing that it says, and no others: the heading, what happened, the
/// environment and the capsule, and each of the rest where it is known, with the evidence.
#[verifier::spinoff_prover]
pub proof fn a_report_says_nothing_else(c: Capsule, cid: Seq<char>, node: Seq<char>)
    requires
        is_in_lines(c),
        !cid.contains('\n'),
        !node.contains('\n'),
    ensures
        ({
            let one = |there: bool| if there { 1int } else { 0int };
            parted(capsule_text(c, cid, node)).len() == 5 + one(node.len() > 0 || c.node@.len() > 0)
                + one(c.cwd@.len() > 0) + one(c.argv@.len() > 0) + one(c.platform@.len() > 0) + one(
                c.python is Some,
            ) + one(c.start_ts_ms is Some) + (match c.stack {
                Some(stack) => 1 + lines(stack@).len(),
                None => 0,
            }) + one(c.stderr_tail@.len() > 0) + c.stderr_tail@.len() + one(c.recent@.len() > 0)
                + c.recent@.len()
        }),
{
    a_report_is_its_blocks(c, cid, node);
    let report = capsule_text(c, cid, node);
    let blocks = blocks_of(c, cid, node, 12);
    a_report_tells_its_blocks(report, said_heading(c), blocks, 0);
    assert(lines_of(blocks_of(c, cid, node, 0)).len() == 0);
    assert(parted(report).len() == lines_of(blocks).len() + 2);
    lines_are_counted(c, cid, node, 0);
    a_block_has_its_lines(c, cid, node, 0);
    lines_are_counted(c, cid, node, 1);
    a_block_has_its_lines(c, cid, node, 1);
    lines_are_counted(c, cid, node, 2);
    a_block_has_its_lines(c, cid, node, 2);
    lines_are_counted(c, cid, node, 3);
    a_block_has_its_lines(c, cid, node, 3);
    lines_are_counted(c, cid, node, 4);
    a_block_has_its_lines(c, cid, node, 4);
    lines_are_counted(c, cid, node, 5);
    a_block_has_its_lines(c, cid, node, 5);
    lines_are_counted(c, cid, node, 6);
    a_block_has_its_lines(c, cid, node, 6);
    lines_are_counted(c, cid, node, 7);
    a_block_has_its_lines(c, cid, node, 7);
    lines_are_counted(c, cid, node, 8);
    a_block_has_its_lines(c, cid, node, 8);
    lines_are_counted(c, cid, node, 9);
    a_block_has_its_lines(c, cid, node, 9);
    lines_are_counted(c, cid, node, 10);
    a_block_has_its_lines(c, cid, node, 10);
    lines_are_counted(c, cid, node, 11);
    a_block_has_its_lines(c, cid, node, 11);
}

/// A report shows the start of the process and how long it lived, where the start is known: the
/// moment behind "started" is that of the start, whatever the moment of the crash, and the duration
/// before it is the time between them.
#[verifier::spinoff_prover]
pub proof fn the_start_is_shown(c: Capsule, cid: Seq<char>, node: Seq<char>)
    requires
        is_in_lines(c),
        !cid.contains('\n'),
        !node.contains('\n'),
        c.start_ts_ms is Some,
        c.start_ts_ms->Some_0 < 253_402_300_800_000,
    ensures
        ({
            let start = c.start_ts_ms->Some_0 as int;
            let line = told(capsule_text(c, cid, node), "lifetime: "@)->Some_0;
            let n = line.len() - 35;
            &&& told(capsule_text(c, cid, node), "lifetime: "@) is Some
            &&& n > 0
            &&& c.ts_ms >= start ==> line.take(n) == seconds_text(c.ts_ms - start)
            &&& c.ts_ms < start ==> line.take(n) == seconds_text(0)
            &&& line.subrange(n, n + 11) == "s (started "@
            &&& line.subrange(n + 11, n + 34) == datetime_text(start)
            &&& line.last() == ')'
        }),
{
    reveal(block_of);
    reveal_strlit("s (started ");
    reveal_strlit(")");
    a_report_is_its_blocks(c, cid, node);
    let report = capsule_text(c, cid, node);
    let blocks = blocks_of(c, cid, node, 12);
    a_report_tells_its_blocks(report, said_heading(c), blocks, 6);
    assert(blocks[6] == block_of(c, cid, node, 6));
    what_a_label_says("lifetime: "@, said_lifetime(c));
    let start = c.start_ts_ms->Some_0 as int;
    let ms = lifetime_ms(start, c.ts_ms as int);
    texts_follow_moments(start, start);
    seconds_have_a_text(ms);
    let line = told(report, "lifetime: "@)->Some_0;
    assert(line == seconds_text(ms) + "s (started "@ + datetime_text(start) + ")"@);
    let n = line.len() - 35;
    assert(line.take(n) =~= seconds_text(ms));
    assert(line.subrange(n, n + 11) =~= "s (started "@);
    assert(line.subrange(n + 11, n + 34) =~= datetime_text(start));
}

proof fn seconds_have_a_text(ms: int)
    ensures
        seconds_text(ms).len() > 0,
{
    reveal_strlit(".");
    assert(seconds_text(ms).len() >= "."@.len());
}

/// The moment that a report gives behind "started" tells the starts of processes apart, to the
/// second, whatever else the capsules hold: two with the same start show the same moment, and two
/// whose starts lie in different seconds show different ones.
pub proof fn starts_are_told_apart(
    a: Capsule,
    b: Capsule,
    cid_a: Seq<char>,
    cid_b: Seq<char>,
    node_a: Seq<char>,
    node_b: Seq<char>,
)
    requires
        is_in_lines(a) && is_in_lines(b),
        !cid_a.contains('\n') && !cid_b.contains('\n'),
        !node_a.contains('\n') && !node_b.contains('\n'),
        a.start_ts_ms is Some && a.start_ts_ms->Some_0 < 253_402_300_800_000,
        b.start_ts_ms is Some && b.start_ts_ms->Some_0 < 253_402_300_800_000,
    ensures
        ({
            let x = told(capsule_text(a, cid_a, node_a), "lifetime: "@)->Some_0;
            let y = told(capsule_text(b, cid_b, node_b), "lifetime: "@)->Some_0;
            x.subrange(x.len() - 24, x.len() - 1) == y.subrange(y.len() - 24, y.len() - 1)
                <==> a.start_ts_ms->Some_0 / 1000 == b.start_ts_ms->Some_0 / 1000
        }),
{
    the_start_is_shown(a, cid_a, node_a);
    the_start_is_shown(b, cid_b, node_b);
    texts_follow_moments(a.start_ts_ms->Some_0 as int, b.start_ts_ms->Some_0 as int);
}

/// The lifetime of a process is the time from its start to its end; none where the end is the
/// earlier one.
pub proof fn lifetimes_run_from_start_to_end(start: int, end: int)
    ensures
        end >= start ==> start + lifetime_ms(start, end) == end,
        end < start ==> lifetime_ms(start, end) == 0,
{
}

/// Lines that are set in stand one below the other, each behind two spaces.
pub proof fn set_in_lines_add_up(a: Seq<Seq<char>>, b: Seq<Seq<char>>, line: Seq<char>)
    ensures
        indented(Seq::<Seq<char>>::empty()).len() == 0,
        indented(seq![line]) == "  "@ + line + "\n"@,
        indented(a + b) == indented(a) + indented(b),
{
    reveal_strlit("\n");
    indented_lines(a);
    indented_lines(b);
    indented_lines(a + b);
    indented_lines(seq![line]);
    ended_adds_up(set_in(a), set_in(b));
    assert(set_in(a + b) =~= set_in(a) + set_in(b));
    assert(set_in(seq![line]) =~= seq!["  "@ + line]);
    ended_one("  "@ + line);
    assert(("  "@ + line).push('\n') =~= "  "@ + line + "\n"@);
}

proof fn a_piece_stands_in_the_report(c: Capsule, cid: Seq<char>, node: Seq<char>, i: int)
    requires
        0 <= i < 12,
    ensures
        part_of(piece_of(c, cid, node, i), capsule_text(c, cid, node)),
{
    a_report_is_its_pieces(c, cid, node);
    let (from, to) = piece_in_pieces(c, cid, node, 12, i);
    let head = heading(c);
    let all = capsule_text(c, cid, node);
    let n = head.len() as int;
    assert(all.subrange(n + from, n + to) =~= pieces_of(c, cid, node, 12).subrange(from, to));
}

proof fn piece_in_pieces(
    c: Capsule,
    cid: Seq<char>,
    node: Seq<char>,
    n: int,
    i: int,
) -> (r: (int, int))
    requires
        0 <= i < n,
    ensures
        0 <= r.0 <= r.1 <= pieces_of(c, cid, node, n).len(),
        pieces_of(c, cid, node, n).subrange(r.0, r.1) == piece_of(c, cid, node, i),
    decreases n,
{
    let all = pieces_of(c, cid, node, n);
    let rest = pieces_of(c, cid, node, n - 1);
    if i == n - 1 {
        let r = (rest.len() as int, all.len() as int);
        assert(all.subrange(r.0, r.1) =~= piece_of(c, cid, node, i));
        r
    } else {
        let r = piece_in_pieces(c, cid, node, n - 1, i);
        assert(all.subrange(r.0, r.1) =~= rest.subrange(r.0, r.1));
        r
    }
}

proof fn reports_start_and_end(c: Capsule, cid: Seq<char>, node: Seq<char>)
    ensures
        heading(c).is_prefix_of(capsule_text(c, cid, node)),
        ("capsule:  "@ + cid + "\n"@).is_suffix_of(capsule_text(c, cid, node)),
{
    let report = capsule_text(c, cid, node);
    let end = "capsule:  "@ + cid + "\n"@;
    let head = heading(c);
    let rest = pieces_of(c, cid, node, 11);
    a_report_is_its_pieces(c, cid, node);
    assert(pieces_of(c, cid, node, 12) == rest + end);
    assert(report == head + (rest + end));
    assert((head + (rest + end)).subrange(0, head.len() as int) =~= head);
    assert(report.subrange(report.len() - end.len(), report.len() as int) =~= end);
}

proof fn the_cause_stands_in_the_report(c: Capsule, cid: Seq<char>, node: Seq<char>)
    ensures
        part_of(
            match c.exc_type {
                Some(class) => "what:     "@ + class@ + " — "@ + c.msg@ + "\n"@,
                None => "what:     "@ + c.msg@ + "\n"@,
            },
            capsule_text(c, cid, node),
        ),
{
    a_piece_stands_in_the_report(c, cid, node, 0);
    match c.exc_type {
        Some(class) => {
            assert(what(c) =~= "what:     "@ + class@ + " — "@ + c.msg@ + "\n"@);
        },
        None => {
            assert(what(c) =~= "what:     "@ + c.msg@ + "\n"@);
        },
    }
}

proof fn the_tail_stands_in_the_report(c: Capsule, cid: Seq<char>, node: Seq<char>)
    ensures
        part_of(indented(texts(c.stderr_tail@)), capsule_text(c, cid, node)),
{
    let report = capsule_text(c, cid, node);
    let tail = indented(texts(c.stderr_tail@));
    if c.stderr_tail@.len() > 0 {
        a_piece_stands_in_the_report(c, cid, node, 8);
        let all = stderr_lines(c);
        assert(all.subrange(all.len() - tail.len(), all.len() as int) =~= tail);
        let (from, to) = choose|from: int, to: int|
            0 <= from <= to <= report.len() && all == #[trigger] report.subrange(from, to);
        assert(report.subrange(to - tail.len(), to) =~= all.subrange(
            all.len() - tail.len(),
            all.len() as int,
        ));
    } else {
        assert(tail =~= Seq::<char>::empty());
        assert(report.subrange(0, 0) =~= tail);
    }
}

/// Nothing is left out of a report, whatever its texts hold: it starts with the app and ends with
/// the id of the capsule, and everything that is known stands in between, word for word.
#[verifier::spinoff_prover]
pub proof fn nothing_is_left_out_of_a_report(c: Capsule, cid: Seq<char>, node: Seq<char>)
    ensures
        ({
            let report = capsule_text(c, cid, node);
            &&& (c.app@ + "  "@ + datetime_text(c.ts_ms as int) + "  ("@ + status_text(
                c.signal,
                c.exit_code,
                c.exit_kind@,
            ) + ")\n"@).is_prefix_of(report)
            &&& ("capsule:  "@ + cid + "\n"@).is_suffix_of(report)
            &&& c.exc_type is None ==> part_of("what:     "@ + c.msg@ + "\n"@, report)
            &&& c.exc_type matches Some(class) ==> part_of(
                "what:     "@ + class@ + " — "@ + c.msg@ + "\n"@,
                report,
            )
            &&& node.len() > 0 ==> part_of("node:     "@ + node + "\n"@, report)
            &&& node.len() == 0 && c.node@.len() > 0 ==> part_of(
                "node:     "@ + c.node@ + "\n"@,
                report,
            )
            &&& c.cwd@.len() > 0 ==> part_of("cwd:      "@ + c.cwd@ + "\n"@, report)
            &&& c.argv@.len() > 0 ==> part_of(
                "argv:     "@ + join(texts(c.argv@), " "@) + "\n"@,
                report,
            )
            &&& c.platform@.len() > 0 ==> part_of("platform: "@ + c.platform@ + "\n"@, report)
            &&& c.stack matches Some(stack) ==> part_of(
                "stack:\n"@ + indented(lines(stack@)),
                report,
            )
            &&& part_of(indented(texts(c.stderr_tail@)), report)
            &&& c.python matches Some(version) ==> part_of(
                "python:   "@ + first_line(version@) + "\n"@,
                report,
            )
            &&& c.start_ts_ms matches Some(start) ==> part_of(
                "lifetime: "@ + seconds_text(
                    if c.ts_ms >= start {
                        c.ts_ms - start
                    } else {
                        0
                    },
                ) + "s (started "@ + datetime_text(start as int) + ")\n"@,
                report,
            )
            &&& c.stderr_tail@.len() > 0 ==> part_of(
                "stderr tail (last "@ + decimal(c.stderr_tail@.len()) + " lines):\n"@ + indented(
                    texts(c.stderr_tail@),
                ),
                report,
            )
            &&& c.recent@.len() > 0 ==> part_of(
                "recent events ("@ + decimal(c.recent@.len()) + " buffered before death):\n"@
                    + indented(
                    documents(c.recent@).map_values(|event: Json| recent_text(event)),
                ),
                report,
            )
            &&& part_of(
                "env:      "@ + decimal(c.env_keys@.len())
                    + " variables (names recorded, values never)\n"@,
                report,
            )
        }),
{
    reports_start_and_end(c, cid, node);
    the_cause_stands_in_the_report(c, cid, node);
    the_tail_stands_in_the_report(c, cid, node);
    a_piece_stands_in_the_report(c, cid, node, 1);
    a_piece_stands_in_the_report(c, cid, node, 2);
    a_piece_stands_in_the_report(c, cid, node, 3);
    a_piece_stands_in_the_report(c, cid, node, 4);
    a_piece_stands_in_the_report(c, cid, node, 5);
    a_piece_stands_in_the_report(c, cid, node, 6);
    a_piece_stands_in_the_report(c, cid, node, 7);
    a_piece_stands_in_the_report(c, cid, node, 8);
    a_piece_stands_in_the_report(c, cid, node, 9);
    a_piece_stands_in_the_report(c, cid, node, 10);
}

/// An event that was buffered is told by the time of day, the level and the message, in this order,
/// with blanks between them; the level takes up five characters or more. Without a level a question
/// mark stands in its place.
pub proof fn an_event_tells_time_level_and_message(event: Json)
    ensures
        ({
            let t = recent_text(event);
            let ts_ms = match event.member("ts_ms"@) {
                Json::Int(n) => if n >= 0 {
                    n
                } else {
                    0
                },
                _ => 0,
            };
            let level = match event.member("level"@) {
                Json::Text(level) => level,
                _ => seq!['?'],
            };
            let msg = match event.member("msg"@) {
                Json::Text(msg) => msg,
                _ => Seq::empty(),
            };
            let wide = if level.len() > 5 {
                level.len() as int
            } else {
                5
            };
            &&& t.len() == 8 + 2 + wide + 1 + msg.len()
            &&& t.take(8) == clock_text(ts_ms / 1000)
            &&& t[8] == ' ' && t[9] == ' '
            &&& t.subrange(10, 10 + level.len() as int) == level
            &&& forall|i: int| 10 + level.len() <= i < 11 + wide ==> #[trigger] t[i] == ' '
            &&& t.skip(11 + wide) == msg
        }),
{
    reveal_strlit("  ");
    reveal_strlit(" ");
    reveal_strlit("?");
    reveal_strlit("");
    assert("?"@ =~= seq!['?']);
    assert(""@ =~= Seq::<char>::empty());
    let ts_ms = number_at(event, "ts_ms"@);
    let level = text_or(event.member("level"@).text(), "?"@);
    let msg = text_or(event.member("msg"@).text(), ""@);
    times_of_day_read_back(ts_ms / 1000);
    padding_right_keeps_the_text(level, ' ', 5);
    let t = recent_text(event);
    let wide = pad_right(level, ' ', 5);
    assert(t =~= clock_text(ts_ms / 1000) + "  "@ + wide + " "@ + msg);
    assert(t.take(8) =~= clock_text(ts_ms / 1000));
    assert(t.subrange(10, 10 + level.len() as int) =~= level);
    assert(t.skip(11 + wide.len() as int) =~= msg);
}

/// The labels of a report, in the order of its lines.
#[verifier::opaque]
pub open spec fn labels() -> Seq<Seq<char>> {
    seq![
        "what:     "@,
        "node:     "@,
        "cwd:      "@,
        "argv:     "@,
        "platform: "@,
        "python:   "@,
        "lifetime: "@,
        "stack:"@,
        "stderr tail (last "@,
        "recent events ("@,
        "env:      "@,
        "capsule:  "@,
    ]
}

/// What a report says stands in one order, whatever is left out: the cause first, then where and
/// how it ran, then the evidence, and the capsule last.
#[verifier::spinoff_prover]
pub proof fn a_report_is_in_order(c: Capsule, cid: Seq<char>, node: Seq<char>, i: int, j: int)
    requires
        is_in_lines(c),
        !cid.contains('\n'),
        !node.contains('\n'),
        0 <= i < j < labels().len(),
        told(capsule_text(c, cid, node), labels()[i]) is Some,
        told(capsule_text(c, cid, node), labels()[j]) is Some,
    ensures
        place_of(parted(capsule_text(c, cid, node)).skip(1), labels()[i]) < place_of(
            parted(capsule_text(c, cid, node)).skip(1),
            labels()[j],
        ),
{
    assert(labels().len() == 12) by {
        reveal(labels);
    }
    a_report_is_its_blocks(c, cid, node);
    let report = capsule_text(c, cid, node);
    let blocks = blocks_of(c, cid, node, 12);
    a_label_is_that_of_its_block(c, cid, node, i);
    a_label_is_that_of_its_block(c, cid, node, j);
    a_report_tells_its_blocks(report, said_heading(c), blocks, i);
    a_report_tells_its_blocks(report, said_heading(c), blocks, j);
    blocks_stand_in_order(report, said_heading(c), blocks, i, j);
}

proof fn a_label_is_that_of_its_block(c: Capsule, cid: Seq<char>, node: Seq<char>, i: int)
    requires
        0 <= i < 12,
    ensures
        blocks_of(c, cid, node, 12)[i].label == labels()[i],
{
    reveal(block_of);
    reveal(labels);
}

/// Whether what stands in `report` between `from` and `to` is nothing, or starts with `label`.
pub open spec fn is_under(report: Seq<char>, label: Seq<char>, from: int, to: int) -> bool {
    &&& 0 <= from <= to <= report.len()
    &&& from == to || label.is_prefix_of(report.subrange(from, to))
}

/// Whether `cuts` part `report` from `from` on into one stretch for each of `all`, in their order,
/// one right behind the other up to its end, each empty or starting with its label.
pub open spec fn goes_by_labels(
    report: Seq<char>,
    all: Seq<Seq<char>>,
    from: int,
    cuts: Seq<int>,
) -> bool {
    &&& cuts.len() == all.len() + 1
    &&& cuts[0] == from
    &&& cuts[all.len() as int] == report.len()
    &&& forall|k: int|
        0 <= k < all.len() ==> is_under(report, #[trigger] all[k], cuts[k], cuts[k + 1])
}

/// Whatever its texts hold, a report is its heading and then what stands under each label, in their
/// order.
#[verifier::spinoff_prover]
pub proof fn a_report_goes_by_its_labels(c: Capsule, cid: Seq<char>, node: Seq<char>)
    ensures
        exists|cuts: Seq<int>| #[trigger]
            goes_by_labels(
                capsule_text(c, cid, node),
                labels(),
                (c.app@ + "  "@ + datetime_text(c.ts_ms as int) + "  ("@ + status_text(
                    c.signal,
                    c.exit_code,
                    c.exit_kind@,
                ) + ")\n"@).len() as int,
                cuts,
            ),
{
    let report = capsule_text(c, cid, node);
    let from = heading(c).len() as int;
    let cuts = Seq::new(13, |k: int| cut_of(c, cid, node, k));
    assert(labels().len() == 12) by {
        reveal(labels);
    }
    first_and_last_cut(c, cid, node);
    assert forall|k: int| 0 <= k < labels().len() implies is_under(
        report,
        #[trigger] labels()[k],
        cuts[k],
        cuts[k + 1],
    ) by {
        a_stretch_goes_by_its_label(c, cid, node, k);
    }
    assert(goes_by_labels(report, labels(), from, cuts));
}

/// Where the stretch with the number `k` starts.
#[verifier::opaque]
spec fn cut_of(c: Capsule, cid: Seq<char>, node: Seq<char>, k: int) -> int {
    (heading(c).len() + pieces_of(c, cid, node, k).len()) as int
}

proof fn a_stretch_goes_by_its_label(c: Capsule, cid: Seq<char>, node: Seq<char>, k: int)
    requires
        0 <= k < 12,
    ensures
        is_under(
            capsule_text(c, cid, node),
            labels()[k],
            cut_of(c, cid, node, k),
            cut_of(c, cid, node, k + 1),
        ),
{
    reveal(cut_of);
    a_stretch_is_its_piece(c, cid, node, k);
    a_piece_starts_with_its_label(c, cid, node, k);
}

proof fn first_and_last_cut(c: Capsule, cid: Seq<char>, node: Seq<char>)
    ensures
        cut_of(c, cid, node, 0) == heading(c).len(),
        cut_of(c, cid, node, 12) == capsule_text(c, cid, node).len(),
{
    reveal(cut_of);
    a_report_is_its_pieces(c, cid, node);
}

proof fn a_stretch_is_its_piece(c: Capsule, cid: Seq<char>, node: Seq<char>, k: int)
    requires
        0 <= k < 12,
    ensures
        ({
            let n = heading(c).len() as int;
            let from = n + pieces_of(c, cid, node, k).len();
            let to = n + pieces_of(c, cid, node, k + 1).len();
            &&& 0 <= from <= to <= capsule_text(c, cid, node).len()
            &&& to == from + piece_of(c, cid, node, k).len()
            &&& capsule_text(c, cid, node).subrange(from, to) == piece_of(c, cid, node, k)
        }),
{
    a_report_is_its_pieces(c, cid, node);
    pieces_are_a_start(c, cid, node, k + 1, 12);
    stretches(
        heading(c),
        pieces_of(c, cid, node, k),
        piece_of(c, cid, node, k),
        pieces_of(c, cid, node, 12),
    );
}

proof fn stretches(head: Seq<char>, before: Seq<char>, piece: Seq<char>, all: Seq<char>)
    requires
        before.len() + piece.len() <= all.len(),
        all.take(before.len() as int + piece.len() as int) == before + piece,
    ensures
        (head + all).subrange(
            head.len() as int + before.len() as int,
            head.len() as int + before.len() as int + piece.len() as int,
        ) == piece,
{
    let start = all.take(before.len() as int + piece.len() as int);
    let at = head.len() as int + before.len() as int;
    let got = (head + all).subrange(at, at + piece.len() as int);
    assert forall|i: int| 0 <= i < piece.len() implies got[i] == piece[i] by {
        assert(start[before.len() + i] == (before + piece)[before.len() + i]);
    }
    assert(got =~= piece);
}

proof fn pieces_are_a_start(c: Capsule, cid: Seq<char>, node: Seq<char>, k: int, n: int)
    requires
        0 <= k <= n,
    ensures
        pieces_of(c, cid, node, k).len() <= pieces_of(c, cid, node, n).len(),
        pieces_of(c, cid, node, n).take(pieces_of(c, cid, node, k).len() as int) == pieces_of(
            c,
            cid,
            node,
            k,
        ),
    decreases n,
{
    let all = pieces_of(c, cid, node, n);
    let start = pieces_of(c, cid, node, k);
    if k == n {
        assert(all.take(start.len() as int) =~= start);
    } else {
        pieces_are_a_start(c, cid, node, k, n - 1);
        let rest = pieces_of(c, cid, node, n - 1);
        assert(all.take(start.len() as int) =~= rest.take(start.len() as int));
    }
}

#[verifier::spinoff_prover]
proof fn a_piece_starts_with_its_label(c: Capsule, cid: Seq<char>, node: Seq<char>, k: int)
    requires
        0 <= k < 12,
    ensures
        piece_of(c, cid, node, k).len() == 0 || labels()[k].is_prefix_of(piece_of(c, cid, node, k)),
{
    reveal(labels);
    let piece = piece_of(c, cid, node, k);
    let label = labels()[k];
    if k == 7 {
        reveal_strlit("stack:");
        reveal_strlit("stack:\n");
    }
    if piece.len() > 0 {
        assert(piece.subrange(0, label.len() as int) =~= label);
    }
}

} // verus!
