//! The command line.

use crate::paths::{basename, goes_by, Platform};
use crate::text::{chars_of, text_of, texts};
use vstd::prelude::*;

verus! {

/// What the program is asked for.
#[derive(Debug, Clone, Copy, PartialEq, Eq, Structural)]
pub enum Command {
    /// Run a command and seal a capsule if it crashes.
    Run,
    /// List the groups of crashes.
    List,
    /// Say why an app crashed last.
    Why,
    /// Anything else: say how the program is used.
    Usage,
}

/// What to run, under which name its crashes are filed, and with whom.
pub struct RunPlan {
    pub app: String,
    /// The node that is asked to index a capsule, where one is named.
    pub provider: Option<String>,
    /// The capability to show to that node, where one is given.
    pub cap: Option<String>,
    /// The command and its arguments.
    pub cmd: Vec<String>,
}

/// Why a command line does not say what to run.
#[derive(Debug, Clone, Copy, PartialEq, Eq, Structural)]
pub enum RunError {
    /// No `--` stands before the command.
    NoSeparator,
    /// Nothing stands behind the `--`.
    NoCommand,
}

/// The position of the first `word` in `args`; their number where it is not there.
pub open spec fn first_at(args: Seq<Seq<char>>, word: Seq<char>) -> int
    decreases args.len(),
{
    if args.len() == 0 || args[0] == word {
        0
    } else {
        1 + first_at(args.drop_first(), word)
    }
}

/// The argument behind the first `name`.
pub open spec fn flag_value(args: Seq<Seq<char>>, name: Seq<char>) -> Option<Seq<char>> {
    let i = first_at(args, name);
    if i + 1 < args.len() {
        Some(args[i + 1])
    } else {
        None
    }
}

/// Whether an argument is the name of a flag.
pub open spec fn is_flag(arg: Seq<char>) -> bool {
    arg.len() >= 2 && arg[0] == '-' && arg[1] == '-'
}

/// The arguments in `args` that are neither flags nor values of flags. Of the flags `--json`
/// alone has no value.
pub open spec fn positionals(args: Seq<Seq<char>>) -> Seq<Seq<char>>
    decreases args.len(),
{
    if args.len() == 0 {
        Seq::empty()
    } else if !is_flag(args[0]) {
        seq![args[0]] + positionals(args.skip(1))
    } else if args[0] == "--json"@ || args.len() == 1 {
        positionals(args.skip(1))
    } else {
        positionals(args.skip(2))
    }
}

/// What a `RunPlan` holds.
pub struct RunPlanView {
    pub app: Seq<char>,
    pub provider: Option<Seq<char>>,
    pub cap: Option<Seq<char>>,
    pub cmd: Seq<Seq<char>>,
}

impl View for RunPlan {
    type V = RunPlanView;

    open spec fn view(&self) -> RunPlanView {
        RunPlanView {
            app: self.app@,
            provider: text_of(self.provider),
            cap: text_of(self.cap),
            cmd: texts(self.cmd@),
        }
    }
}

/// Why a command line does not say what to run, where it does not.
pub open spec fn run_error(args: Seq<Seq<char>>) -> Option<RunError> {
    let sep = first_at(args, "--"@);
    if sep >= args.len() {
        Some(RunError::NoSeparator)
    } else if sep + 1 == args.len() {
        Some(RunError::NoCommand)
    } else {
        None
    }
}

/// Whether `plan` is what a command line says to run.
pub open spec fn is_run_plan(
    platform: Platform,
    args: Seq<Seq<char>>,
    plan: RunPlanView,
) -> bool {
    let sep = first_at(args, "--"@);
    &&& match flag_value(args.take(sep), "--app"@) {
        Some(app) => plan.app == app,
        None => goes_by(platform, args[sep + 1], plan.app),
    }
    &&& plan.provider == flag_value(args.take(sep), "--provider"@)
    &&& plan.cap == flag_value(args, "--cap"@)
    &&& plan.cmd == args.skip(sep + 1)
}

/// Whether `word` is among `args`.
pub open spec fn mentions(args: Seq<Seq<char>>, word: Seq<char>) -> bool {
    first_at(args, word) < args.len()
}

/// The position of the first `word` in `args`; their number where it is not there.
fn find(args: &[String], word: &str) -> (r: usize)
    ensures
        r == first_at(texts(args@), word@),
        r <= args@.len(),
{
    let key = word.to_owned();
    let ghost all = texts(args@);
    let mut i: usize = 0;
    assert(all.skip(0) =~= all);
    while i < args.len() && args[i] != key
        invariant
            i <= args@.len(),
            all == texts(args@),
            key@ == word@,
            first_at(all, word@) == i + first_at(all.skip(i as int), word@),
        decreases args@.len() - i,
    {
        assert(all.skip(i as int).drop_first() =~= all.skip(i + 1));
        i += 1;
    }
    i
}

/// Whether `word` is among `args`.
pub fn has(args: &[String], word: &str) -> (r: bool)
    ensures
        r == mentions(texts(args@), word@),
{
    find(args, word) < args.len()
}

/// The argument behind the first `name`.
pub fn flag(args: &[String], name: &str) -> (r: Option<String>)
    ensures
        match r {
            Some(value) => flag_value(texts(args@), name@) == Some(value@),
            None => flag_value(texts(args@), name@) is None,
        },
{
    let i: usize = find(args, name);
    if i < args.len() && args.len() - i > 1 {
        Some(args[i + 1].clone())
    } else {
        None
    }
}

/// Whether an argument is the name of a flag.
fn names_flag(arg: &str) -> (r: bool)
    ensures
        r == is_flag(arg@),
{
    let chars = chars_of(arg);
    chars.len() >= 2 && chars[0] == '-' && chars[1] == '-'
}

/// Argument number `n` of those that are neither flags nor values of flags. The program's name
/// is number 0 and the subcommand number 1; those behind them are counted here.
pub fn positional(args: &[String], n: usize) -> (r: Option<String>)
    ensures
        match r {
            Some(arg) => 2 <= n && 2 <= args@.len() && n - 2 < positionals(
                texts(args@).skip(2),
            ).len() && positionals(texts(args@).skip(2))[n - 2] == arg@,
            None => n < 2 || args@.len() < 2 || n - 2 >= positionals(texts(args@).skip(2)).len(),
        },
{
    let ghost all = texts(args@);
    if n < 2 || args.len() < 2 {
        return None;
    }
    let json = "--json".to_owned();
    let mut i: usize = 2;
    let mut seen: usize = 2;
    let ghost found = positionals(all.skip(2));
    assert(Seq::<Seq<char>>::empty() + found =~= found);
    while i < args.len()
        invariant
            2 <= i <= args@.len(),
            2 <= seen <= n,
            seen <= i,
            json@ == "--json"@,
            all == texts(args@),
            found == positionals(all.skip(2)),
            seen - 2 <= found.len(),
            positionals(all.skip(i as int)) == found.skip(seen - 2),
        decreases args@.len() - i,
    {
        let ghost rest = all.skip(i as int);
        assert(rest[0] == args@[i as int]@);
        assert(rest.skip(1) =~= all.skip(i + 1));
        if names_flag(args[i].as_str()) {
            if args[i] == json || args.len() - i == 1 {
                i += 1;
            } else {
                assert(rest.skip(2) =~= all.skip(i + 2));
                i += 2;
            }
        } else {
            assert(positionals(rest)[0] == args@[i as int]@);
            assert(found.skip(seen - 2).len() > 0);
            assert(found.skip(seen - 2)[0] == found[seen - 2]);
            if seen == n {
                return Some(args[i].clone());
            }
            assert(positionals(rest).skip(1) =~= positionals(all.skip(i + 1)));
            assert(found.skip(seen - 2).skip(1) =~= found.skip(seen - 1));
            seen += 1;
            i += 1;
        }
    }
    assert(found.skip(seen - 2).len() == 0);
    None
}

/// What the program is asked for.
pub open spec fn command_of(args: Seq<Seq<char>>) -> Command {
    if args.len() < 2 {
        Command::Usage
    } else if args[1] == "run"@ {
        Command::Run
    } else if args[1] == "list"@ {
        Command::List
    } else if args[1] == "why"@ {
        Command::Why
    } else {
        Command::Usage
    }
}

/// What the program is asked for.
pub fn command(args: &[String]) -> (r: Command)
    ensures
        r == command_of(texts(args@)),
        r == if args@.len() < 2 {
            Command::Usage
        } else if args@[1]@ == "run"@ {
            Command::Run
        } else if args@[1]@ == "list"@ {
            Command::List
        } else if args@[1]@ == "why"@ {
            Command::Why
        } else {
            Command::Usage
        },
{
    if args.len() < 2 {
        Command::Usage
    } else if args[1] == "run".to_owned() {
        Command::Run
    } else if args[1] == "list".to_owned() {
        Command::List
    } else if args[1] == "why".to_owned() {
        Command::Why
    } else {
        Command::Usage
    }
}

/// What a command line says to run: what stands behind the first `--`. Its name is the value of
/// `--app` before that, or else the base name of the command; the node to ask is the value of
/// `--provider` before that. The capability is the value of `--cap` anywhere.
pub fn plan_run(args: &[String], platform: Platform) -> (r: Result<RunPlan, RunError>)
    ensures
        match r {
            Ok(plan) => run_error(texts(args@)) is None && is_run_plan(
                platform,
                texts(args@),
                plan@,
            ),
            Err(e) => run_error(texts(args@)) == Some(e),
        },
{
    let ghost all = texts(args@);
    let sep: usize = find(args, "--");
    if sep >= args.len() {
        return Err(RunError::NoSeparator);
    }
    if args.len() - sep == 1 {
        return Err(RunError::NoCommand);
    }
    let mut cmd: Vec<String> = Vec::new();
    let mut i: usize = sep + 1;
    while i < args.len()
        invariant
            sep + 1 <= i <= args@.len(),
            all == texts(args@),
            texts(cmd@) =~= all.subrange(sep + 1, i as int),
        decreases args@.len() - i,
    {
        let arg = args[i].clone();
        assert(texts(cmd@.push(arg)) =~= texts(cmd@).push(arg@));
        cmd.push(arg);
        i += 1;
    }
    assert(texts(cmd@) =~= all.skip(sep + 1));
    let before = &args[0..sep];
    assert(texts(before@) =~= all.take(sep as int));
    let app = match flag(before, "--app") {
        Some(app) => app,
        None => basename(args[sep + 1].as_str(), platform),
    };
    let provider = flag(before, "--provider");
    let cap = flag(args, "--cap");
    Ok(RunPlan { app, provider, cap, cmd })
}

// ---- laws ----

/// A word is found where it first stands: it stands there, and nowhere before. Where it does not
/// stand at all, it is not found, and only there.
pub proof fn a_word_is_found_where_it_first_stands(args: Seq<Seq<char>>, word: Seq<char>)
    ensures
        0 <= first_at(args, word) <= args.len(),
        forall|i: int| 0 <= i < first_at(args, word) ==> #[trigger] args[i] != word,
        first_at(args, word) < args.len() ==> args[first_at(args, word)] == word,
        mentions(args, word) <==> args.contains(word),
    decreases args.len(),
{
    if args.len() > 0 && args[0] != word {
        let rest = args.drop_first();
        a_word_is_found_where_it_first_stands(rest, word);
        assert forall|i: int| 0 <= i < first_at(args, word) implies #[trigger] args[i] != word by {
            if i > 0 {
                assert(args[i] == rest[i - 1]);
            }
        }
        if first_at(rest, word) < rest.len() {
            assert(args[first_at(args, word)] == rest[first_at(rest, word)]);
        }
    }
    if args.contains(word) {
        let i = choose|i: int| 0 <= i < args.len() && args[i] == word;
        if first_at(args, word) >= args.len() {
            assert(args[i] != word);
        }
    }
}

proof fn first_behind(before: Seq<Seq<char>>, word: Seq<char>, after: Seq<Seq<char>>)
    requires
        !before.contains(word),
    ensures
        first_at(before, word) == before.len(),
        first_at(before.push(word) + after, word) == before.len(),
{
    let args = before.push(word) + after;
    let n = before.len() as int;
    a_word_is_found_where_it_first_stands(before, word);
    a_word_is_found_where_it_first_stands(args, word);
    assert(args[n] == word);
    let i = first_at(args, word);
    if i < n {
        assert(args[i] == before[i]);
        assert(before.contains(word));
    }
}

/// A flag has as its value the argument right behind the first place where it stands, whatever
/// stands before and behind; where it is last, or does not stand at all, it has none.
pub proof fn a_flag_has_the_value_behind_it(
    before: Seq<Seq<char>>,
    name: Seq<char>,
    value: Seq<char>,
    after: Seq<Seq<char>>,
)
    requires
        !before.contains(name),
    ensures
        flag_value(before.push(name).push(value) + after, name) == Some(value),
        flag_value(before.push(name), name) is None,
        flag_value(before, name) is None,
{
    let rest = seq![value] + after;
    assert(before.push(name).push(value) + after =~= before.push(name) + rest);
    first_behind(before, name, rest);
    first_behind(before, name, Seq::empty());
    assert(before.push(name) + Seq::<Seq<char>>::empty() =~= before.push(name));
}

/// What does not start with two hyphens counts, unless it is the value of a flag. What does is
/// passed over together with the argument behind it, save for `--json`, which has no value.
pub proof fn flags_and_their_values_are_passed_over(
    word: Seq<char>,
    value: Seq<char>,
    rest: Seq<Seq<char>>,
)
    ensures
        positionals(Seq::<Seq<char>>::empty()).len() == 0,
        !"--"@.is_prefix_of(word) ==> positionals(seq![word] + rest) == seq![word] + positionals(
            rest,
        ),
        positionals(seq!["--json"@] + rest) == positionals(rest),
        "--"@.is_prefix_of(word) && word != "--json"@ ==> positionals(seq![word, value] + rest)
            == positionals(rest),
        "--"@.is_prefix_of(word) ==> positionals(seq![word]).len() == 0,
{
    reveal_strlit("--");
    reveal_strlit("--json");
    if is_flag(word) {
        assert(word.subrange(0, 2) =~= "--"@);
    } else if "--"@.is_prefix_of(word) {
        assert(word.subrange(0, 2)[0] == word[0] && word.subrange(0, 2)[1] == word[1]);
    }
    let one = seq![word] + rest;
    let two = seq![word, value] + rest;
    let json = seq!["--json"@] + rest;
    assert(one[0] == word && two[0] == word && json[0] == "--json"@);
    assert(one.skip(1) =~= rest);
    assert(two.skip(2) =~= rest);
    assert(json.skip(1) =~= rest);
    assert(seq![word][0] == word);
    assert(seq![word].skip(1) =~= Seq::<Seq<char>>::empty());
    assert(positionals(Seq::<Seq<char>>::empty()).len() == 0);
    assert(is_flag(word) ==> positionals(seq![word]) == positionals(seq![word].skip(1)));
}

/// What is run is what stands behind the first `--`, all of it and nothing else. The flags before
/// it are those of this program, the flags behind it those of the command, but for the capability,
/// which may stand anywhere.
pub proof fn what_stands_behind_the_separator_is_run(
    platform: Platform,
    before: Seq<Seq<char>>,
    cmd: Seq<Seq<char>>,
    plan: RunPlanView,
)
    requires
        !before.contains("--"@),
        cmd.len() > 0,
        is_run_plan(platform, before.push("--"@) + cmd, plan),
    ensures
        run_error(before) == Some(RunError::NoSeparator),
        run_error(before.push("--"@)) == Some(RunError::NoCommand),
        run_error(before.push("--"@) + cmd) is None,
        plan.cmd == cmd,
        plan.app == match flag_value(before, "--app"@) {
            Some(app) => app,
            None => plan.app,
        },
        flag_value(before, "--app"@) is None ==> goes_by(platform, cmd[0], plan.app),
        plan.provider == flag_value(before, "--provider"@),
        plan.cap == flag_value(before.push("--"@) + cmd, "--cap"@),
{
    let args = before.push("--"@) + cmd;
    first_behind(before, "--"@, cmd);
    first_behind(before, "--"@, Seq::empty());
    assert(before.push("--"@) + Seq::<Seq<char>>::empty() =~= before.push("--"@));
    assert(args.take(before.len() as int) =~= before);
    assert(args.skip(before.len() as int + 1) =~= cmd);
    assert(args[before.len() as int + 1] == cmd[0]);
}

/// A plan is seen as it is.
pub proof fn plans_are_seen_as_they_are(plan: RunPlan)
    ensures
        plan@.app == plan.app@,
        plan@.provider is Some <==> plan.provider is Some,
        plan.provider matches Some(node) ==> plan@.provider == Some(node@),
        plan@.cap is Some <==> plan.cap is Some,
        plan.cap matches Some(cap) ==> plan@.cap == Some(cap@),
        plan@.cmd.len() == plan.cmd@.len(),
        forall|i: int| 0 <= i < plan.cmd@.len() ==> #[trigger] plan@.cmd[i] == plan.cmd@[i]@,
{
}

/// What the program is asked for is the first word behind its own name, whatever follows; any other
/// word asks how it is used.
pub proof fn the_first_word_is_the_command(
    name: Seq<char>,
    word: Seq<char>,
    rest: Seq<Seq<char>>,
)
    ensures
        ({
            let r = command_of(seq![name, word] + rest);
            &&& r == Command::Run <==> word == "run"@
            &&& r == Command::List <==> word == "list"@
            &&& r == Command::Why <==> word == "why"@
        }),
        command_of(seq![name]) == Command::Usage,
{
    reveal_strlit("run");
    reveal_strlit("list");
    reveal_strlit("why");
    assert("run"@.len() == 3 && "list"@.len() == 4 && "why"@.len() == 3);
    assert("run"@[0] != "why"@[0]);
    assert((seq![name, word] + rest)[1] == word);
}

} // verus!
