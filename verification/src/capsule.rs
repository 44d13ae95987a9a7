//! The crash capsule: one document that says what died, how, and the evidence.

use crate::order::{in_order, order_is_unique, sorted};
use crate::text::{
    decimal, is_blank, push_signed, signed_decimal, texts, trim, trim_end, trim_start, trimmed,
    trimming_takes_the_blanks_at_the_ends,
};
use serde_json::Value;
use vstd::prelude::*;

verus! {

/// How many trailing stderr lines a capsule keeps.
pub const STDERR_TAIL_LINES: usize = 100;

/// One crash capsule. What a language hook or the wrapper-runner may not have is optional or
/// empty, so that one type holds what either of them seals.
#[derive(Debug, Clone)]
pub struct Capsule {
    pub app: String,
    /// Stamped by the collector on the index event; often empty inside the capsule itself.
    pub node: String,
    /// Unix milliseconds at the crash.
    pub ts_ms: u64,
    /// Unix milliseconds at the start of the process (wrapper-runner only).
    pub start_ts_ms: Option<u64>,
    /// "exit", "signal" or "exception".
    pub exit_kind: String,
    pub exit_code: Option<i32>,
    pub signal: Option<i32>,
    /// The class name of the exception (language hooks only).
    pub exc_type: Option<String>,
    /// What happened, in one line: what crashes are grouped by.
    pub msg: String,
    /// The stack trace (language hooks only).
    pub stack: Option<String>,
    /// The last lines of stderr (wrapper-runner only).
    pub stderr_tail: Vec<String>,
    pub argv: Vec<String>,
    /// The version of the interpreter (language hooks only).
    pub python: Option<String>,
    pub platform: String,
    pub cwd: String,
    /// The names of the environment variables, never their values.
    pub env_keys: Vec<String>,
    /// The last events that the process buffered (language hooks only).
    pub recent: Vec<Value>,
}

impl Default for Capsule {
    fn default() -> (r: Self)
        ensures
            r.app@.len() == 0 && r.node@.len() == 0 && r.exit_kind@.len() == 0 && r.msg@.len() == 0
                && r.platform@.len() == 0 && r.cwd@.len() == 0,
            r.ts_ms == 0,
            r.start_ts_ms is None && r.exit_code is None && r.signal is None && r.exc_type is None
                && r.stack is None && r.python is None,
            r.stderr_tail@.len() == 0 && r.argv@.len() == 0 && r.env_keys@.len() == 0
                && r.recent@.len() == 0,
    {
        Capsule {
            app: String::new(),
            node: String::new(),
            ts_ms: 0,
            start_ts_ms: None,
            exit_kind: String::new(),
            exit_code: None,
            signal: None,
            exc_type: None,
            msg: String::new(),
            stack: None,
            stderr_tail: Vec::new(),
            argv: Vec::new(),
            python: None,
            platform: String::new(),
            cwd: String::new(),
            env_keys: Vec::new(),
            recent: Vec::new(),
        }
    }
}

/// What a process can say of where it runs.
pub struct Host {
    /// The operating system.
    pub os: String,
    /// The processor architecture.
    pub arch: String,
    /// The working directory, where it can be told.
    pub cwd: Option<String>,
    /// The environment variables, each with its value.
    pub env: Vec<(String, String)>,
}

/// The names of environment variables.
pub open spec fn names(env: Seq<(String, String)>) -> Seq<Seq<char>> {
    env.map_values(|v: (String, String)| v.0@)
}

/// How a process ended, in words. A signal counts for more than an exit code; where there is
/// neither, `otherwise` is said.
pub open spec fn status_text(
    signal: Option<i32>,
    exit_code: Option<i32>,
    otherwise: Seq<char>,
) -> Seq<char> {
    match (signal, exit_code) {
        (Some(s), _) => "killed by signal "@ + signed_decimal(s as int),
        (None, Some(c)) => "exit code "@ + signed_decimal(c as int),
        (None, None) => otherwise,
    }
}

/// The last of `lines` that is not blank, without the blanks at its ends; `otherwise` where all
/// are blank.
pub open spec fn last_words(lines: Seq<Seq<char>>, otherwise: Seq<char>) -> Seq<char>
    decreases lines.len(),
{
    if lines.len() == 0 {
        otherwise
    } else if trim(lines.last()).len() > 0 {
        trim(lines.last())
    } else {
        last_words(lines.drop_last(), otherwise)
    }
}

/// How a process ended, in words.
pub fn status_line(signal: Option<i32>, exit_code: Option<i32>, otherwise: &str) -> (r: String)
    ensures
        r@ == status_text(signal, exit_code, otherwise@),
{
    let mut out = String::new();
    match (signal, exit_code) {
        (Some(s), _) => {
            out.append("killed by signal ");
            push_signed(&mut out, s);
        },
        (None, Some(c)) => {
            out.append("exit code ");
            push_signed(&mut out, c);
        },
        (None, None) => {
            out.append(otherwise);
        },
    }
    assert(out@ =~= status_text(signal, exit_code, otherwise@));
    out
}

/// The last of `lines` that is not blank, without the blanks at its ends.
fn last_words_of(lines: &Vec<String>, otherwise: String) -> (r: String)
    ensures
        r@ == last_words(texts(lines@), otherwise@),
{
    let ghost all = texts(lines@);
    let mut i: usize = lines.len();
    assert(all.take(i as int) =~= all);
    while i > 0
        invariant
            i <= lines@.len(),
            all == texts(lines@),
            last_words(all, otherwise@) == last_words(all.take(i as int), otherwise@),
        decreases i,
    {
        let line = trimmed(lines[i - 1].as_str());
        assert(all.take(i as int).last() == lines@[i - 1]@);
        assert(all.take(i as int).drop_last() =~= all.take(i - 1));
        if !line.as_str().is_empty() {
            return line;
        }
        i -= 1;
    }
    otherwise
}

/// The names of the environment variables in `env`, in order.
fn names_in_order(env: &Vec<(String, String)>) -> (r: Vec<String>)
    ensures
        in_order(texts(r@), names(env@)),
{
    let ghost all = names(env@);
    let mut keys: Vec<String> = Vec::new();
    let mut i: usize = 0;
    while i < env.len()
        invariant
            i <= env@.len(),
            all == names(env@),
            texts(keys@) == all.take(i as int),
        decreases env@.len() - i,
    {
        let key = env[i].0.clone();
        assert(texts(keys@.push(key)) =~= texts(keys@).push(key@));
        keys.push(key);
        i += 1;
        assert(all.take(i as int) =~= all.take(i - 1).push(all[i - 1]));
    }
    assert(all.take(i as int) =~= all);
    sorted(keys)
}

/// Copies of `strings`.
fn copies(strings: &[String]) -> (r: Vec<String>)
    ensures
        r@ == strings@,
{
    let mut out: Vec<String> = Vec::new();
    let mut i: usize = 0;
    while i < strings.len()
        invariant
            i <= strings@.len(),
            out@ =~= strings@.take(i as int),
        decreases strings@.len() - i,
    {
        out.push(strings[i].clone());
        i += 1;
    }
    out
}

/// Whether `c` is the capsule of a child process that the wrapper-runner saw end.
pub open spec fn is_capsule_of_run(
    c: Capsule,
    app: Seq<char>,
    argv: Seq<String>,
    exit_code: Option<i32>,
    signal: Option<i32>,
    stderr_tail: Seq<String>,
    start_ts_ms: u64,
    ts_ms: u64,
    host: Host,
) -> bool {
    &&& c.app@ == app && c.argv@ == argv && c.stderr_tail@ == stderr_tail
    &&& c.ts_ms == ts_ms && c.start_ts_ms == Some(start_ts_ms)
    &&& c.exit_code == exit_code && c.signal == signal
    &&& c.exit_kind@ == if signal is Some {
        "signal"@
    } else {
        "exit"@
    }
    &&& c.msg@ == last_words(
        texts(stderr_tail),
        status_text(signal, exit_code, "abnormal exit"@),
    )
    &&& c.platform@ == host.os@ + "-"@ + host.arch@
    &&& c.cwd@ == match host.cwd {
        Some(dir) => dir@,
        None => ""@,
    }
    &&& in_order(texts(c.env_keys@), names(host.env@))
    &&& c.node@.len() == 0 && c.exc_type is None && c.stack is None && c.python is None
    &&& c.recent@.len() == 0
}

/// The capsule of a child process that the wrapper-runner saw end. Its message is the last line
/// of stderr that is not blank, which usually is the actual error, so that crashes are grouped by
/// their cause and not by their exit code.
pub fn build_run_capsule(
    app: &str,
    argv: &[String],
    exit_code: Option<i32>,
    signal: Option<i32>,
    stderr_tail: Vec<String>,
    start_ts_ms: u64,
    ts_ms: u64,
    host: &Host,
) -> (r: Capsule)
    ensures
        is_capsule_of_run(
            r,
            app@,
            argv@,
            exit_code,
            signal,
            stderr_tail@,
            start_ts_ms,
            ts_ms,
            *host,
        ),
        r.app@ == app@,
        r.node@ == ""@,
        r.ts_ms == ts_ms,
        r.start_ts_ms == Some(start_ts_ms),
        r.exit_kind@ == if signal is Some {
            "signal"@
        } else {
            "exit"@
        },
        r.exit_code == exit_code,
        r.signal == signal,
        r.exc_type is None,
        r.msg@ == last_words(
            texts(stderr_tail@),
            status_text(signal, exit_code, "abnormal exit"@),
        ),
        r.stack is None,
        r.stderr_tail == stderr_tail,
        r.argv@ == argv@,
        r.python is None,
        r.platform@ == host.os@ + "-"@ + host.arch@,
        r.cwd@ == match host.cwd {
            Some(dir) => dir@,
            None => ""@,
        },
        in_order(texts(r.env_keys@), names(host.env@)),
        r.recent@.len() == 0,
{
    let msg = last_words_of(&stderr_tail, status_line(signal, exit_code, "abnormal exit"));
    let exit_kind = if signal.is_some() {
        "signal".to_owned()
    } else {
        "exit".to_owned()
    };
    let mut platform = host.os.clone();
    platform.append("-");
    platform.append(host.arch.as_str());
    let cwd = match &host.cwd {
        Some(dir) => dir.clone(),
        None => "".to_owned(),
    };
    proof {
        reveal_strlit("");
    }
    Capsule {
        app: app.to_owned(),
        node: "".to_owned(),
        ts_ms,
        start_ts_ms: Some(start_ts_ms),
        exit_kind,
        exit_code,
        signal,
        exc_type: None,
        msg,
        stack: None,
        stderr_tail,
        argv: copies(argv),
        python: None,
        platform,
        cwd,
        env_keys: names_in_order(&host.env),
        recent: Vec::new(),
    }
}

// ---- laws ----

/// The values of environment variables are never recorded: two environments that differ in values
/// alone leave the same record.
pub proof fn values_leave_no_trace(
    a: Capsule,
    b: Capsule,
    env_a: Seq<(String, String)>,
    env_b: Seq<(String, String)>,
)
    requires
        in_order(texts(a.env_keys@), names(env_a)),
        in_order(texts(b.env_keys@), names(env_b)),
        names(env_a) == names(env_b),
    ensures
        texts(a.env_keys@) == texts(b.env_keys@),
{
    order_is_unique(texts(a.env_keys@), texts(b.env_keys@), names(env_a));
}

/// What is recorded of the environment are the names of its variables, all of them and nothing
/// else.
pub proof fn names_are_recorded(c: Capsule, env: Seq<(String, String)>)
    requires
        in_order(texts(c.env_keys@), names(env)),
    ensures
        forall|key: Seq<char>| #[trigger]
            texts(c.env_keys@).contains(key) <==> names(env).contains(key),
        c.env_keys@.len() == env.len(),
{
    broadcast use vstd::seq_lib::group_to_multiset_ensures;

    texts(c.env_keys@).to_multiset_ensures();
    names(env).to_multiset_ensures();
    assert forall|key: Seq<char>| #[trigger] texts(c.env_keys@).contains(key) <==> names(
        env,
    ).contains(key) by {
        assert(texts(c.env_keys@).to_multiset().count(key) == names(env).to_multiset().count(key));
    }
}

/// Where stderr says anything, the message is about the cause and not about the exit code: it does
/// not depend on how the process ended.
pub proof fn message_tells_the_cause(lines: Seq<Seq<char>>, a: Seq<char>, b: Seq<char>)
    requires
        exists|i: int| 0 <= i < lines.len() && trim(#[trigger] lines[i]).len() > 0,
    ensures
        last_words(lines, a) == last_words(lines, b),
        last_words(lines, a).len() > 0,
    decreases lines.len(),
{
    if trim(lines.last()).len() == 0 {
        let i = choose|i: int| 0 <= i < lines.len() && trim(#[trigger] lines[i]).len() > 0;
        assert(lines.drop_last()[i] == lines[i]);
        message_tells_the_cause(lines.drop_last(), a, b);
    }
}

/// Where stderr is blank, the message says how the process ended.
pub proof fn message_tells_the_end(lines: Seq<Seq<char>>, otherwise: Seq<char>)
    requires
        forall|i: int| 0 <= i < lines.len() ==> trim(#[trigger] lines[i]).len() == 0,
    ensures
        last_words(lines, otherwise) == otherwise,
    decreases lines.len(),
{
    if lines.len() > 0 {
        assert forall|i: int| 0 <= i < lines.drop_last().len() implies trim(
            #[trigger] lines.drop_last()[i],
        ).len() == 0 by {
            assert(lines.drop_last()[i] == lines[i]);
        }
        message_tells_the_end(lines.drop_last(), otherwise);
    }
}

/// The message of a run is one line, where each line of stderr is one.
pub proof fn message_is_one_line(
    lines: Seq<Seq<char>>,
    signal: Option<i32>,
    exit_code: Option<i32>,
)
    requires
        forall|i: int| 0 <= i < lines.len() ==> !(#[trigger] lines[i]).contains('\n'),
    ensures
        !last_words(lines, status_text(signal, exit_code, "abnormal exit"@)).contains('\n'),
    decreases lines.len(),
{
    if lines.len() == 0 {
        reveal_strlit("killed by signal ");
        reveal_strlit("exit code ");
        reveal_strlit("abnormal exit");
        if let Some(s) = signal {
            number_is_one_line(s as int);
        }
        if let Some(c) = exit_code {
            number_is_one_line(c as int);
        }
    } else {
        assert(lines[lines.len() - 1] == lines.last());
        trimming_adds_nothing(lines.last(), '\n');
        assert forall|i: int| 0 <= i < lines.drop_last().len() implies !(
        #[trigger] lines.drop_last()[i]).contains('\n') by {
            assert(lines.drop_last()[i] == lines[i]);
        }
        message_is_one_line(lines.drop_last(), signal, exit_code);
    }
}

proof fn number_is_one_line(n: int)
    ensures
        !signed_decimal(n).contains('\n'),
{
    if n < 0 {
        digits_are_one_line((-n) as nat);
    } else {
        digits_are_one_line(n as nat);
    }
}

proof fn digits_are_one_line(n: nat)
    ensures
        !decimal(n).contains('\n'),
    decreases n,
{
    if n >= 10 {
        digits_are_one_line(n / 10);
    }
    assert forall|i: int| 0 <= i < decimal(n).len() implies decimal(n)[i] != '\n' by {
        if n >= 10 && i < decimal(n / 10).len() {
            assert(decimal(n)[i] == decimal(n / 10)[i]);
        }
    }
}

proof fn trimming_adds_nothing(s: Seq<char>, c: char)
    ensures
        trim(s).contains(c) ==> s.contains(c),
{
    trim_start_adds_nothing(s, c);
    trim_end_adds_nothing(trim_start(s), c);
}

proof fn trim_start_adds_nothing(s: Seq<char>, c: char)
    ensures
        trim_start(s).contains(c) ==> s.contains(c),
    decreases s.len(),
{
    if s.len() > 0 && is_blank(s[0]) {
        trim_start_adds_nothing(s.drop_first(), c);
        if s.drop_first().contains(c) {
            let i = choose|i: int| 0 <= i < s.drop_first().len() && s.drop_first()[i] == c;
            assert(s[i + 1] == c);
        }
    }
}

proof fn trim_end_adds_nothing(s: Seq<char>, c: char)
    ensures
        trim_end(s).contains(c) ==> s.contains(c),
    decreases s.len(),
{
    if s.len() > 0 && is_blank(s.last()) {
        trim_end_adds_nothing(s.drop_last(), c);
        if s.drop_last().contains(c) {
            let i = choose|i: int| 0 <= i < s.drop_last().len() && s.drop_last()[i] == c;
            assert(s[i] == c);
        }
    }
}

/// The text of a number stands at the end of what is said of a signal, or else of an exit code, so
/// that no two signals are told alike, nor two exit codes, nor a signal and an exit code. Without
/// either what is to be said otherwise is said.
pub proof fn the_end_of_a_process_is_told(
    signal: i32,
    exit_code: Option<i32>,
    code: i32,
    otherwise: Seq<char>,
)
    ensures
        ({
            let by_signal = status_text(Some(signal), exit_code, otherwise);
            let by_code = status_text(None, Some(code), otherwise);
            &&& by_signal.take(17) == "killed by signal "@
            &&& by_signal.skip(17) == signed_decimal(signal as int)
            &&& by_code.take(10) == "exit code "@
            &&& by_code.skip(10) == signed_decimal(code as int)
            &&& by_signal != by_code
        }),
        status_text(None, None, otherwise) == otherwise,
{
    reveal_strlit("killed by signal ");
    reveal_strlit("exit code ");
    let by_signal = status_text(Some(signal), exit_code, otherwise);
    let by_code = status_text(None, Some(code), otherwise);
    assert(by_signal.take(17) =~= "killed by signal "@);
    assert(by_signal.skip(17) =~= signed_decimal(signal as int));
    assert(by_code.take(10) =~= "exit code "@);
    assert(by_code.skip(10) =~= signed_decimal(code as int));
    assert(by_signal[0] == 'k' && by_code[0] == 'e');
}

/// The message is the last line that is not blank, without the blanks at its ends: whatever stands
/// before that line, and however many blank lines follow it.
pub proof fn the_last_line_that_says_something_is_the_message(
    before: Seq<Seq<char>>,
    line: Seq<char>,
    after: Seq<Seq<char>>,
    otherwise: Seq<char>,
)
    requires
        exists|i: int| 0 <= i < line.len() && !is_blank(#[trigger] line[i]),
        forall|j: int, i: int|
            0 <= j < after.len() && 0 <= i < after[j].len() ==> is_blank(#[trigger] after[j][i]),
    ensures
        last_words(before.push(line) + after, otherwise) == trim(line),
        last_words(after, otherwise) == otherwise,
    decreases after.len(),
{
    trimming_takes_the_blanks_at_the_ends(line);
    if after.len() == 0 {
        assert(before.push(line) + after =~= before.push(line));
        assert(before.push(line).last() == line);
    } else {
        let last = after.last();
        let rest = after.drop_last();
        assert forall|i: int| 0 <= i < last.len() implies is_blank(#[trigger] last[i]) by {
            assert(is_blank(after[after.len() - 1][i]));
        }
        trimming_takes_the_blanks_at_the_ends(last);
        assert forall|j: int, i: int|
            0 <= j < rest.len() && 0 <= i < rest[j].len() implies is_blank(
            #[trigger] rest[j][i],
        ) by {
            assert(is_blank(after[j][i]));
        }
        the_last_line_that_says_something_is_the_message(before, line, rest, otherwise);
        assert((before.push(line) + after).drop_last() =~= before.push(line) + rest);
        assert((before.push(line) + after).last() == last);
    }
}

/// The names of environment variables are those of the variables, one for one.
pub proof fn each_variable_has_its_name(env: Seq<(String, String)>)
    ensures
        names(env).len() == env.len(),
        forall|i: int| 0 <= i < env.len() ==> #[trigger] names(env)[i] == env[i].0@,
{
}

/// The capsule of a run holds what was seen of the run, and where: who ran what, when it started
/// and ended, every line of stderr that was kept, how it ended, and the names of its environment. It
/// says "signal" exactly where a signal ended the process. What only a language hook can know is
/// left open.
pub proof fn a_run_is_told_as_it_was_seen(
    c: Capsule,
    app: Seq<char>,
    argv: Seq<String>,
    exit_code: Option<i32>,
    signal: Option<i32>,
    stderr_tail: Seq<String>,
    start_ts_ms: u64,
    ts_ms: u64,
    host: Host,
)
    requires
        is_capsule_of_run(
            c,
            app,
            argv,
            exit_code,
            signal,
            stderr_tail,
            start_ts_ms,
            ts_ms,
            host,
        ),
    ensures
        c.app@ == app && c.argv@ == argv && c.stderr_tail@ == stderr_tail,
        c.ts_ms == ts_ms && c.start_ts_ms == Some(start_ts_ms),
        c.exit_code == exit_code && c.signal == signal,
        c.exit_kind@ == "signal"@ <==> signal is Some,
        c.exit_kind@ == "exit"@ <==> signal is None,
        host.os@.is_prefix_of(c.platform@) && host.arch@.is_suffix_of(c.platform@),
        c.platform@.len() == host.os@.len() + 1 + host.arch@.len(),
        c.platform@[host.os@.len() as int] == '-',
        host.cwd matches Some(dir) ==> c.cwd@ == dir@,
        host.cwd is None ==> c.cwd@.len() == 0,
        c.env_keys@.len() == host.env@.len(),
        forall|i: int|
            0 <= i < host.env@.len() ==> texts(c.env_keys@).contains(
                (#[trigger] host.env@[i]).0@,
            ),
        c.exc_type is None && c.stack is None && c.python is None && c.recent@.len() == 0
            && c.node@.len() == 0,
{
    reveal_strlit("signal");
    reveal_strlit("exit");
    reveal_strlit("-");
    reveal_strlit("");
    assert("signal"@.len() == 6 && "exit"@.len() == 4);
    let os = host.os@;
    let arch = host.arch@;
    let platform = c.platform@;
    assert(platform.subrange(0, os.len() as int) =~= os);
    assert(platform.subrange(platform.len() - arch.len(), platform.len() as int) =~= arch);
    names_are_recorded(c, host.env@);
    assert forall|i: int| 0 <= i < host.env@.len() implies texts(c.env_keys@).contains(
        (#[trigger] host.env@[i]).0@,
    ) by {
        assert(names(host.env@)[i] == host.env@[i].0@);
        assert(names(host.env@).contains(host.env@[i].0@));
    }
}

/// Where stderr is silent the message of a run tells how it ended: the number of the signal, or
/// else the exit code, or that it ended abnormally.
pub proof fn a_silent_run_tells_its_end(
    c: Capsule,
    app: Seq<char>,
    argv: Seq<String>,
    exit_code: Option<i32>,
    signal: Option<i32>,
    stderr_tail: Seq<String>,
    start_ts_ms: u64,
    ts_ms: u64,
    host: Host,
)
    requires
        is_capsule_of_run(
            c,
            app,
            argv,
            exit_code,
            signal,
            stderr_tail,
            start_ts_ms,
            ts_ms,
            host,
        ),
        forall|j: int, i: int|
            0 <= j < stderr_tail.len() && 0 <= i < stderr_tail[j]@.len() ==> is_blank(
                #[trigger] stderr_tail[j]@[i],
            ),
    ensures
        signal matches Some(s) ==> c.msg@ == "killed by signal "@ + signed_decimal(s as int),
        signal is None ==> (exit_code matches Some(code) ==> c.msg@ == "exit code "@
            + signed_decimal(code as int)),
        signal is None && exit_code is None ==> c.msg@ == "abnormal exit"@,
{
    let lines = texts(stderr_tail);
    assert forall|i: int| 0 <= i < lines.len() implies trim(#[trigger] lines[i]).len() == 0 by {
        let line = lines[i];
        assert forall|k: int| 0 <= k < line.len() implies is_blank(#[trigger] line[k]) by {
            assert(is_blank(stderr_tail[i]@[k]));
        }
        trimming_takes_the_blanks_at_the_ends(line);
    }
    message_tells_the_end(lines, status_text(signal, exit_code, "abnormal exit"@));
}

} // verus!
