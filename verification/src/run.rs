//! What follows from how a child process ended.

use crate::paths::{is_joined, joined, unix_joined, Platform};
use crate::text::{decimal, push_decimal, text_of};
use vstd::prelude::*;

verus! {

/// What to do once the child process has ended.
#[derive(Debug, Clone, Copy, PartialEq, Eq, Structural)]
pub enum Verdict {
    /// It ended well: there is nothing to do.
    Fine,
    /// It crashed: seal a capsule, then exit with this code, whatever became of the capsule.
    Crashed(i32),
}

/// The code to exit with after a crash: that of the child, or the one that stands for the signal.
pub open spec fn exit_of(exit_code: Option<i32>, signal: Option<i32>) -> int {
    match (exit_code, signal) {
        (Some(c), _) => c as int,
        (None, Some(s)) => 128 + s,
        (None, None) => 128,
    }
}

/// What to do once the child process has ended.
pub open spec fn verdict_of(
    success: bool,
    exit_code: Option<i32>,
    signal: Option<i32>,
) -> Verdict {
    if success {
        Verdict::Fine
    } else {
        Verdict::Crashed(exit_of(exit_code, signal) as i32)
    }
}

/// What to do once the child process has ended.
pub fn verdict(success: bool, exit_code: Option<i32>, signal: Option<i32>) -> (r: Verdict)
    requires
        success || exit_of(exit_code, signal) <= i32::MAX,
    ensures
        success ==> r == Verdict::Fine,
        !success ==> r == Verdict::Crashed(exit_of(exit_code, signal) as i32),
        r == verdict_of(success, exit_code, signal),
{
    if success {
        return Verdict::Fine;
    }
    match (exit_code, signal) {
        (Some(c), _) => Verdict::Crashed(c),
        (None, Some(s)) => Verdict::Crashed(128 + s),
        (None, None) => Verdict::Crashed(128),
    }
}

/// What became of a capsule.
pub enum Sealed {
    /// It is stored under this id, and indexed.
    Indexed(String),
    /// The mesh could not be reached, for the reason given first; the capsule was written to the
    /// file given second.
    Kept(String, String),
    /// The mesh could not be reached, for the reason given first, nor the capsule be written to a
    /// file, for the reason given second.
    Lost(String, String),
}

/// What to do once the mesh was asked to store and index a capsule.
pub enum SealStep {
    /// Nothing more: this is what became of it.
    Done(Sealed),
    /// The mesh could not be reached, for this reason: write the capsule to a file.
    WriteFallback(String),
}

/// What to do once the mesh was asked to store and index a capsule: `emitted` is the id under which
/// it is stored, or why it could not be.
pub fn after_emit(emitted: Result<String, String>) -> (r: SealStep)
    ensures
        match emitted {
            Ok(cid) => r == SealStep::Done(Sealed::Indexed(cid)),
            Err(reason) => r == SealStep::WriteFallback(reason),
        },
{
    match emitted {
        Ok(cid) => SealStep::Done(Sealed::Indexed(cid)),
        Err(reason) => SealStep::WriteFallback(reason),
    }
}

/// What became of a capsule that the mesh did not take, for `reason`: `written` is the file that it
/// was written to, or why it could not be.
pub fn after_fallback(reason: String, written: Result<String, String>) -> (r: Sealed)
    ensures
        match written {
            Ok(path) => r == Sealed::Kept(reason, path),
            Err(second) => r == Sealed::Lost(reason, second),
        },
{
    match written {
        Ok(path) => Sealed::Kept(reason, path),
        Err(second) => Sealed::Lost(reason, second),
    }
}

/// What is said of what became of a capsule of `app`.
pub open spec fn note(sealed: Sealed, app: Seq<char>) -> Seq<char> {
    match sealed {
        Sealed::Indexed(cid) => "ce-crash: capsule "@ + cid@ + " indexed for "@ + app,
        Sealed::Kept(reason, path) => "ce-crash: mesh unreachable ("@ + reason@
            + "); capsule written to "@ + path@,
        Sealed::Lost(reason, second) => "ce-crash: capsule lost ("@ + reason@
            + "; fallback failed: "@ + second@ + ")"@,
    }
}

/// What is said of what became of a capsule of `app`.
pub fn seal_note(sealed: &Sealed, app: &str) -> (r: String)
    ensures
        r@ == note(*sealed, app@),
{
    let mut out = String::new();
    match sealed {
        Sealed::Indexed(cid) => {
            out.append("ce-crash: capsule ");
            out.append(cid.as_str());
            out.append(" indexed for ");
            out.append(app);
        },
        Sealed::Kept(reason, path) => {
            out.append("ce-crash: mesh unreachable (");
            out.append(reason.as_str());
            out.append("); capsule written to ");
            out.append(path.as_str());
        },
        Sealed::Lost(reason, second) => {
            out.append("ce-crash: capsule lost (");
            out.append(reason.as_str());
            out.append("; fallback failed: ");
            out.append(second.as_str());
            out.append(")");
        },
    }
    assert(out@ =~= note(*sealed, app@));
    out
}

/// The directory below the home directory for capsules that could not be stored on the mesh.
pub const FALLBACK_DIR: &'static str = ".local/share/ce/ce-crash";

/// The home directory, or the working directory where none is known.
pub open spec fn home_of(home: Option<Seq<char>>) -> Seq<char> {
    match home {
        Some(home) => home,
        None => "."@,
    }
}

/// The home directory, or the working directory where none is known.
pub fn fallback_home(home: Option<String>) -> (r: String)
    ensures
        r@ == home_of(text_of(home)),
        r@ == match home {
            Some(home) => home@,
            None => "."@,
        },
{
    match home {
        Some(home) => home,
        None => ".".to_owned(),
    }
}

/// The directory for capsules that could not be stored on the mesh.
pub fn fallback_dir(home: &str, platform: Platform) -> (r: String)
    ensures
        is_joined(platform, home@, FALLBACK_DIR@, r@),
{
    joined(home, FALLBACK_DIR, platform)
}

/// The file for a capsule of `app` that was sealed at `ts_ms`. Whatever the name of the app, the
/// path starts with the directory.
pub fn fallback_path(home: &str, app: &str, ts_ms: u64, platform: Platform) -> (r: String)
    ensures
        platform == Platform::Unix ==> r@ == unix_joined(home@, FALLBACK_DIR@) + "/"@ + app@ + "-"@
            + decimal(ts_ms as nat) + ".json"@,
        exists|dir: Seq<char>, folder: Seq<char>|
            {
                &&& #[trigger] is_joined(platform, home@, FALLBACK_DIR@, dir)
                &&& #[trigger] is_joined(platform, dir, ""@, folder)
                &&& r@ == folder + app@ + "-"@ + decimal(ts_ms as nat) + ".json"@
            },
{
    let dir = fallback_dir(home, platform);
    let mut out = joined(dir.as_str(), "", platform);
    let ghost folder = out@;
    proof {
        reveal_strlit("");
        reveal_strlit(".local/share/ce/ce-crash");
        if platform == Platform::Unix {
            assert(dir@.last() == FALLBACK_DIR@.last());
            assert(folder =~= unix_joined(home@, FALLBACK_DIR@) + "/"@);
        }
    }
    out.append(app);
    out.append("-");
    push_decimal(&mut out, ts_ms);
    out.append(".json");
    assert(is_joined(platform, home@, FALLBACK_DIR@, dir@));
    assert(is_joined(platform, dir@, ""@, folder));
    out
}

// ---- laws ----

/// After a crash the child's own code is passed on where it has one. Where it has none, the code
/// less 128 is the number of the signal, so that different signals give different codes; without a
/// signal it is 128 itself.
pub proof fn the_fate_of_the_child_is_passed_on(
    exit_code: Option<i32>,
    signal: Option<i32>,
    other: Option<i32>,
)
    ensures
        exit_code matches Some(code) ==> exit_of(exit_code, signal) == code && exit_of(
            exit_code,
            signal,
        ) == exit_of(exit_code, other),
        exit_code is None ==> (signal matches Some(s) ==> exit_of(exit_code, signal) - 128 == s),
        exit_code is None && signal is None ==> exit_of(exit_code, signal) - 128 == 0,
        exit_code is None && signal is Some && other is Some && signal != other ==> exit_of(
            exit_code,
            signal,
        ) != exit_of(exit_code, other),
{
}

/// A note reads back: it names the capsule that was stored and its app, or the reason and the file
/// that the capsule was written to, or both reasons for which it is lost, word for word, and says
/// which of these it is.
pub proof fn a_note_tells_what_became_of_the_capsule(
    first: String,
    second: String,
    app: Seq<char>,
)
    ensures
        ({
            let stored = note(Sealed::Indexed(first), app);
            let kept = note(Sealed::Kept(first, second), app);
            let lost = note(Sealed::Lost(first, second), app);
            let n = first@.len() as int;
            let m = second@.len() as int;
            &&& stored.take(18) == "ce-crash: capsule "@
            &&& stored.subrange(18, 18 + n) == first@
            &&& stored.subrange(18 + n, 31 + n) == " indexed for "@
            &&& stored.skip(31 + n) == app
            &&& kept.take(28) == "ce-crash: mesh unreachable ("@
            &&& kept.subrange(28, 28 + n) == first@
            &&& kept.subrange(28 + n, 50 + n) == "); capsule written to "@
            &&& kept.skip(50 + n) == second@
            &&& lost.take(24) == "ce-crash: capsule lost ("@
            &&& lost.subrange(24, 24 + n) == first@
            &&& lost.subrange(24 + n, 43 + n) == "; fallback failed: "@
            &&& lost.subrange(43 + n, 43 + n + m) == second@
            &&& lost.skip(43 + n + m) == seq![')']
        }),
{
    reveal_strlit("ce-crash: capsule ");
    reveal_strlit(" indexed for ");
    reveal_strlit("ce-crash: mesh unreachable (");
    reveal_strlit("); capsule written to ");
    reveal_strlit("ce-crash: capsule lost (");
    reveal_strlit("; fallback failed: ");
    reveal_strlit(")");
    let stored = note(Sealed::Indexed(first), app);
    let kept = note(Sealed::Kept(first, second), app);
    let lost = note(Sealed::Lost(first, second), app);
    let n = first@.len() as int;
    let m = second@.len() as int;
    assert(stored.take(18) =~= "ce-crash: capsule "@);
    assert(stored.subrange(18, 18 + n) =~= first@);
    assert(stored.subrange(18 + n, 31 + n) =~= " indexed for "@);
    assert(stored.skip(31 + n) =~= app);
    assert(kept.take(28) =~= "ce-crash: mesh unreachable ("@);
    assert(kept.subrange(28, 28 + n) =~= first@);
    assert(kept.subrange(28 + n, 50 + n) =~= "); capsule written to "@);
    assert(kept.skip(50 + n) =~= second@);
    assert(lost.take(24) =~= "ce-crash: capsule lost ("@);
    assert(lost.subrange(24, 24 + n) =~= first@);
    assert(lost.subrange(24 + n, 43 + n) =~= "; fallback failed: "@);
    assert(lost.subrange(43 + n, 43 + n + m) =~= second@);
    assert(lost.skip(43 + n + m) =~= seq![')']);
}

/// A child that ended well is left at that. Any other crashed, and its fate is passed on: its own
/// code, or 128 more than the number of its signal.
pub proof fn only_a_crash_is_a_crash(success: bool, code: i32, signal: Option<i32>, s: i32)
    requires
        s <= i32::MAX - 128,
    ensures
        success ==> verdict_of(success, Some(code), signal) == Verdict::Fine,
        !success ==> verdict_of(success, Some(code), signal) == Verdict::Crashed(code),
        !success ==> {
            let r = verdict_of(success, None, Some(s));
            r is Crashed && r->Crashed_0 - 128 == s
        },
        !success ==> {
            let r = verdict_of(success, None, None);
            r is Crashed && r->Crashed_0 == 128
        },
{
}

/// Where the home directory is known it is taken as it is.
pub proof fn a_capsule_goes_below_the_home_directory(home: Seq<char>)
    ensures
        home_of(Some(home)) == home,
        home_of(None) == seq!['.'],
{
    reveal_strlit(".");
    assert("."@ =~= seq!['.']);
}

} // verus!
