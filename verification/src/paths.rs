//! Paths: the name of a file, and a file in a directory.

use crate::text::{chars_of, text_between, text_of};
use std::path::Path;
use vstd::prelude::*;

verus! {

/// Whose rules paths follow.
#[derive(Debug, Clone, Copy, PartialEq, Eq, Structural)]
pub enum Platform {
    /// Those of Unix: the slash alone parts components.
    Unix,
    /// Those by which the machine reads paths.
    Native,
}

/// The position behind the last slash of `path`; 0 where it has none.
pub open spec fn behind_last_slash(path: Seq<char>) -> int
    decreases path.len(),
{
    if path.len() == 0 || path.last() == '/' {
        path.len() as int
    } else {
        behind_last_slash(path.drop_last())
    }
}

/// The last component of `path`, as Unix reads paths: its components are what slashes part. Empty
/// ones and `.` are passed over; where the last one is `..`, or none is left, there is no name.
pub open spec fn file_name(path: Seq<char>) -> Option<Seq<char>>
    decreases path.len(),
{
    let at = behind_last_slash(path);
    let last = path.skip(at);
    if last.len() == 0 || last == "."@ {
        if 1 <= at <= path.len() {
            file_name(path.take(at - 1))
        } else {
            None
        }
    } else if last == ".."@ {
        None
    } else {
        Some(last)
    }
}

/// Whether Windows reads `path` as Unix does: nothing in it is a separator or the prefix of a path
/// to Windows alone.
pub open spec fn read_alike(path: Seq<char>) -> bool {
    &&& !path.contains('\\')
    &&& !path.contains(':')
    &&& !(path.len() >= 2 && path[0] == '/' && path[1] == '/')
}

/// Whether `part` stands somewhere in `whole`.
pub open spec fn part_of(part: Seq<char>, whole: Seq<char>) -> bool {
    exists|i: int, j: int|
        0 <= i <= j <= whole.len() && part == #[trigger] whole.subrange(i, j)
}

/// Whether a machine, by its own rules, can take `name` to be the last component of `path`.
pub open spec fn native_file_name(path: Seq<char>, name: Option<Seq<char>>) -> bool {
    &&& read_alike(path) ==> name == file_name(path)
    &&& name matches Some(name) ==> part_of(name, path)
}

/// `dir` and `name` as one path of Unix. A slash parts them, unless `dir` is empty or ends in one.
pub open spec fn unix_joined(dir: Seq<char>, name: Seq<char>) -> Seq<char> {
    if dir.len() == 0 || dir.last() == '/' {
        dir + name
    } else {
        dir + "/"@ + name
    }
}

/// Whether `name` is a relative path on every machine.
pub open spec fn is_relative(name: Seq<char>) -> bool {
    &&& !name.contains('\\')
    &&& !name.contains(':')
    &&& !(name.len() > 0 && name[0] == '/')
}

/// Whether a machine, by its own rules, can take `path` for `name` in `dir`. Nothing is said where
/// `name` may stand for itself, and where `dir` is a path of Windows that starts with two
/// backslashes.
pub open spec fn native_joined(dir: Seq<char>, name: Seq<char>, path: Seq<char>) -> bool {
    is_relative(name) && !(dir.len() >= 2 && dir[0] == '\\' && dir[1] == '\\') ==> {
        let parted = path == dir + "/"@ + name || path == dir + "\\"@ + name;
        if dir.len() == 0 {
            path == name
        } else if dir.last() == '/' || dir.last() == '\\' || dir.last() == ':' {
            parted || path == dir + name
        } else {
            parted
        }
    }
}

/// Whether `path` is `name` in `dir`.
pub open spec fn is_joined(
    platform: Platform,
    dir: Seq<char>,
    name: Seq<char>,
    path: Seq<char>,
) -> bool {
    match platform {
        Platform::Unix => path == unix_joined(dir, name),
        Platform::Native => native_joined(dir, name, path),
    }
}

/// `std::path::Path::file_name`: the final component of `path`, where there is one. Which it is
/// rests on the machine. It is a part of the path, and where Unix and Windows read the path alike it
/// is the last component that slashes part. Of other paths no more is said.
#[verifier::external_body]
fn std_file_name(path: &str) -> (r: Option<String>)
    ensures
        native_file_name(path@, text_of(r)),
{
    match Path::new(path).file_name() {
        Some(name) => Some(name.to_string_lossy().into_owned()),
        None => None,
    }
}

/// `std::path::Path::join`: `name` behind `dir`. Whether a separator comes between them, and which,
/// rests on the machine; `native_joined` says what it can be.
#[verifier::external_body]
fn std_join(dir: &str, name: &str) -> (r: String)
    ensures
        native_joined(dir@, name@, r@),
{
    Path::new(dir).join(name).to_string_lossy().into_owned()
}

/// The last component of `path`, as Unix reads paths.
fn unix_file_name(path: &str) -> (r: Option<String>)
    ensures
        text_of(r) == file_name(path@),
{
    let chars = chars_of(path);
    let mut len: usize = chars.len();
    assert(chars@.take(len as int) =~= chars@);
    loop
        invariant
            len <= chars@.len(),
            file_name(path@) == file_name(chars@.take(len as int)),
        decreases len,
    {
        let ghost left = chars@.take(len as int);
        let mut at: usize = len;
        assert(left.take(at as int) =~= left);
        while at > 0 && chars[at - 1] != '/'
            invariant
                at <= len <= chars@.len(),
                left == chars@.take(len as int),
                behind_last_slash(left) == behind_last_slash(left.take(at as int)),
            decreases at,
        {
            assert(left.take(at as int).drop_last() =~= left.take(at - 1));
            at -= 1;
        }
        proof {
            let last = left.skip(at as int);
            assert(behind_last_slash(left) == at);
            reveal_strlit(".");
            reveal_strlit("..");
            if last.len() == 1 && last[0] == '.' {
                assert(last =~= "."@);
            }
            if last.len() == 2 && last[0] == '.' && last[1] == '.' {
                assert(last =~= ".."@);
            }
        }
        let size: usize = len - at;
        if size == 0 || (size == 1 && chars[at] == '.') {
            if at == 0 {
                return None;
            }
            assert(left.take(at - 1) =~= chars@.take(at - 1));
            len = at - 1;
        } else if size == 2 && chars[at] == '.' && chars[at + 1] == '.' {
            return None;
        } else {
            let last = text_between(&chars, at, len);
            assert(last@ =~= left.skip(at as int));
            return Some(last);
        }
    }
}

/// The name under which a command is known whose file name is `name`: that, or all of it where it
/// has none.
pub open spec fn known_as(cmd: Seq<char>, name: Option<Seq<char>>) -> Seq<char> {
    match name {
        Some(name) => name,
        None => cmd,
    }
}

/// The name under which a command is known on Unix.
pub open spec fn name_of(cmd: Seq<char>) -> Seq<char> {
    known_as(cmd, file_name(cmd))
}

/// Whether a command is known under the name `r`.
pub open spec fn goes_by(platform: Platform, cmd: Seq<char>, r: Seq<char>) -> bool {
    match platform {
        Platform::Unix => r == name_of(cmd),
        Platform::Native => exists|name: Option<Seq<char>>| #[trigger]
            native_file_name(cmd, name) && r == known_as(cmd, name),
    }
}

/// The name under which a command is known whose file name is `name`.
pub fn name_or_all(cmd: &str, name: Option<String>) -> (r: String)
    ensures
        r@ == known_as(cmd@, text_of(name)),
{
    match name {
        Some(name) => name,
        None => cmd.to_owned(),
    }
}

/// The name under which a command is known: its file name, or all of it where it has none.
pub fn basename(cmd: &str, platform: Platform) -> (r: String)
    ensures
        goes_by(platform, cmd@, r@),
{
    let name = match platform {
        Platform::Unix => unix_file_name(cmd),
        Platform::Native => std_file_name(cmd),
    };
    let ghost found = text_of(name);
    let r = name_or_all(cmd, name);
    assert(platform == Platform::Native ==> native_file_name(cmd@, found));
    r
}

/// `name` in `dir`.
pub fn joined(dir: &str, name: &str, platform: Platform) -> (r: String)
    ensures
        is_joined(platform, dir@, name@, r@),
{
    match platform {
        Platform::Unix => {
            let chars = chars_of(dir);
            let mut out = dir.to_owned();
            if chars.len() > 0 && chars[chars.len() - 1] != '/' {
                out.append("/");
            }
            out.append(name);
            out
        },
        Platform::Native => std_join(dir, name),
    }
}

// ---- laws ----

/// A file name is not empty and holds no slash.
pub proof fn a_file_name_is_one_component(path: Seq<char>)
    ensures
        file_name(path) matches Some(name) ==> name.len() > 0 && !name.contains('/'),
    decreases path.len(),
{
    let at = behind_last_slash(path);
    no_slash_behind_the_last(path);
    let last = path.skip(at);
    if last.len() == 0 || last == "."@ {
        if 1 <= at <= path.len() {
            a_file_name_is_one_component(path.take(at - 1));
        }
    }
}

proof fn no_slash_behind_the_last(path: Seq<char>)
    ensures
        0 <= behind_last_slash(path) <= path.len(),
        !path.skip(behind_last_slash(path)).contains('/'),
    decreases path.len(),
{
    if !(path.len() == 0 || path.last() == '/') {
        no_slash_behind_the_last(path.drop_last());
        let at = behind_last_slash(path);
        assert(path.skip(at) =~= path.drop_last().skip(at).push(path.last()));
        assert forall|i: int| 0 <= i < path.skip(at).len() implies path.skip(at)[i] != '/' by {
            if i < path.drop_last().skip(at).len() {
                assert(path.skip(at)[i] == path.drop_last().skip(at)[i]);
            }
        }
    }
}

/// Where Unix and Windows read a command alike, it goes by one name on both.
pub proof fn some_commands_go_by_one_name(cmd: Seq<char>, r: Seq<char>)
    requires
        read_alike(cmd),
        goes_by(Platform::Native, cmd, r),
    ensures
        goes_by(Platform::Unix, cmd, r),
{
}

proof fn the_last_slash_is_found(path: Seq<char>, at: int)
    requires
        0 <= at <= path.len(),
        forall|i: int| at <= i < path.len() ==> #[trigger] path[i] != '/',
        at > 0 ==> path[at - 1] == '/',
    ensures
        behind_last_slash(path) == at,
    decreases path.len(),
{
    if path.len() > at {
        let rest = path.drop_last();
        assert forall|i: int| at <= i < rest.len() implies #[trigger] rest[i] != '/' by {
            assert(rest[i] == path[i]);
        }
        assert(path[path.len() - 1] != '/');
        the_last_slash_is_found(rest, at);
    }
}

/// The name of a file is what stands behind the last slash, whatever the directory; without a slash
/// it is all of the path. A slash at the end makes no difference, nor does a dot behind one. Behind
/// two dots there is no name, nor is there one of nothing, a dot or the root.
pub proof fn the_name_stands_behind_the_last_slash(dir: Seq<char>, name: Seq<char>)
    requires
        !name.contains('/'),
        name.len() > 0,
        name != "."@,
        name != ".."@,
    ensures
        file_name(name) == Some(name),
        file_name(dir.push('/') + name) == Some(name),
        file_name(dir.push('/')) == file_name(dir),
        file_name(dir.push('/') + "."@) == file_name(dir),
        file_name(dir.push('/') + ".."@) is None,
        file_name(".."@) is None,
        file_name("."@) is None,
        file_name(Seq::<char>::empty()) is None,
{
    reveal_strlit(".");
    reveal_strlit("..");
    let n = dir.len() as int + 1;
    let empty = Seq::<char>::empty();
    assert forall|i: int| 0 <= i < name.len() implies #[trigger] name[i] != '/' by {
        assert(name.contains(name[i]));
    }
    the_last_slash_is_found(name, 0);
    assert(name.skip(0) =~= name);
    the_last_slash_is_found(dir.push('/') + name, n);
    assert((dir.push('/') + name).skip(n) =~= name);
    the_last_slash_is_found(dir.push('/'), n);
    assert(dir.push('/').skip(n) =~= empty);
    assert(dir.push('/').take(n - 1) =~= dir);
    the_last_slash_is_found(dir.push('/') + "."@, n);
    assert((dir.push('/') + "."@).skip(n) =~= "."@);
    assert((dir.push('/') + "."@).take(n - 1) =~= dir);
    the_last_slash_is_found(dir.push('/') + ".."@, n);
    assert((dir.push('/') + ".."@).skip(n) =~= ".."@);
    assert(".."@.len() == 2 && "."@.len() == 1);
    the_last_slash_is_found(".."@, 0);
    assert(".."@.skip(0) =~= ".."@);
    the_last_slash_is_found("."@, 0);
    assert("."@.skip(0) =~= "."@);
    the_last_slash_is_found(empty, 0);
    assert(empty.skip(0) =~= empty);
}

/// On Unix a command goes by what stands behind the last slash of its path; where there is no name,
/// it goes by all of it.
pub proof fn a_command_goes_by_its_name(dir: Seq<char>, name: Seq<char>, r: Seq<char>)
    requires
        !name.contains('/'),
        name.len() > 0,
        name != "."@,
        name != ".."@,
    ensures
        goes_by(Platform::Unix, dir.push('/') + name, r) <==> r == name,
        goes_by(Platform::Unix, name, r) <==> r == name,
        goes_by(Platform::Unix, dir.push('/') + ".."@, r) <==> r == dir.push('/') + ".."@,
{
    the_name_stands_behind_the_last_slash(dir, name);
}

/// On Unix a file in a directory is the directory, a slash and the file; the slash is there once,
/// and not behind an empty directory.
pub proof fn a_file_stands_behind_its_directory(dir: Seq<char>, name: Seq<char>, path: Seq<char>)
    requires
        is_joined(Platform::Unix, dir, name, path),
    ensures
        dir.is_prefix_of(path),
        name.is_suffix_of(path),
        dir.len() == 0 || dir.last() == '/' ==> path.len() == dir.len() + name.len(),
        dir.len() > 0 && dir.last() != '/' ==> path.len() == dir.len() + 1 + name.len()
            && path[dir.len() as int] == '/',
{
    reveal_strlit("/");
    assert(path.subrange(0, dir.len() as int) =~= dir);
    assert(path.subrange(path.len() - name.len(), path.len() as int) =~= name);
}

} // verus!
