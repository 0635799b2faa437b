//! The names of the files that stand beside a log file: the temporary file
//! that replaces it and the file on which its writers take their lock. Paths
//! are text whose components are parted by slashes.

use crate::text::{chars_of, string_of};
use vstd::prelude::*;
use vstd::string::*;

verus! {

/// How many characters at the beginning of `p` are no component to strip:
/// the slash of the root, or the dot of a path that begins in the current
/// directory.
pub open spec fn path_floor(p: Seq<char>) -> nat {
    if p.len() > 0 && p[0] == '/' {
        1
    } else if p.len() > 0 && p[0] == '.' && (p.len() == 1 || p[1] == '/') {
        1
    } else {
        0
    }
}

/// `p` without the slashes and the components `.` at its end, but not
/// shorter than `floor`.
pub open spec fn trimmed(p: Seq<char>, floor: nat) -> Seq<char>
    decreases p.len(),
{
    if p.len() <= floor {
        p
    } else if p.last() == '/' {
        trimmed(p.drop_last(), floor)
    } else if p.last() == '.' && p.len() - 1 == floor {
        p.drop_last()
    } else if p.last() == '.' && p.len() - 1 > floor && p[p.len() - 2] == '/' {
        trimmed(p.take(p.len() - 2), floor)
    } else {
        p
    }
}

/// The number of characters of `p` up to its last slash, that slash
/// included; none where it has no slash.
pub open spec fn after_last_slash(p: Seq<char>) -> nat
    decreases p.len(),
{
    if p.len() == 0 {
        0
    } else if p.last() == '/' {
        p.len()
    } else {
        after_last_slash(p.drop_last())
    }
}

/// The path `p` up to the end of its last component.
pub open spec fn to_name_end(p: Seq<char>) -> Seq<char> {
    trimmed(p, path_floor(p))
}

/// Where the last component of `p` begins.
pub open spec fn name_start(p: Seq<char>) -> nat {
    after_last_slash(to_name_end(p))
}

/// The last component of `p`.
pub open spec fn last_component(p: Seq<char>) -> Seq<char> {
    to_name_end(p).skip(name_start(p) as int)
}

/// Whether `p` ends in the name of a file: it has a last component, and
/// that is not `..`.
pub open spec fn has_file_name(p: Seq<char>) -> bool {
    to_name_end(p).len() > path_floor(p) && last_component(p) != seq!['.', '.']
}

/// The directory of the file that `p` names: `p` without its last component
/// and the slash before it, and without what slashes and components `.`
/// then stand at its end.
pub open spec fn parent_of(p: Seq<char>) -> Seq<char> {
    let start = name_start(p);
    let cut = if start > path_floor(p) {
        (start - 1) as nat
    } else {
        start
    };
    trimmed(to_name_end(p).take(cut as int), path_floor(p))
}

/// The path of `name` in the directory `dir`: a slash parts the two unless
/// `dir` is empty or ends in one.
pub open spec fn joined(dir: Seq<char>, name: Seq<char>) -> Seq<char> {
    if dir.len() > 0 && dir.last() != '/' {
        dir + seq!['/'] + name
    } else {
        dir + name
    }
}

/// The temporary file that is written before it replaces the file at `p`:
/// the name of that file with `.tmp` behind it. A path that names no file
/// stays as it is.
pub open spec fn tmp_path_text(p: Seq<char>) -> Seq<char> {
    if has_file_name(p) {
        to_name_end(p) + ".tmp"@
    } else {
        p
    }
}

/// The file on which the writers of the file at `p` take their lock: in the
/// same directory, the name of that file with `.lock` behind it. Where `p`
/// names no file, it is `index.json.lock` in `p`.
pub open spec fn lock_path_text(p: Seq<char>) -> Seq<char> {
    if has_file_name(p) {
        joined(parent_of(p), last_component(p) + ".lock"@)
    } else {
        joined(p, "index.json.lock"@)
    }
}

/// How many characters at the beginning of `chars` are no component to
/// strip.
fn floor_of(chars: &Vec<char>) -> (floor: usize)
    ensures
        floor == path_floor(chars@),
        floor <= chars@.len(),
{
    let n = chars.len();
    if n > 0 && chars[0] == '/' {
        1
    } else if n > 0 && chars[0] == '.' && (n == 1 || chars[1] == '/') {
        1
    } else {
        0
    }
}

/// The length of the first `len` characters of `chars` without the slashes
/// and the components `.` at their end, but not less than `floor`.
fn trimmed_len(chars: &Vec<char>, len: usize, floor: usize) -> (end: usize)
    requires
        len <= chars@.len(),
    ensures
        end <= len,
        chars@.take(end as int) == trimmed(chars@.take(len as int), floor as nat),
{
    let mut end: usize = len;
    loop
        invariant
            end <= len <= chars@.len(),
            trimmed(chars@.take(len as int), floor as nat) == trimmed(
                chars@.take(end as int),
                floor as nat,
            ),
        ensures
            end <= len,
            chars@.take(end as int) == trimmed(chars@.take(len as int), floor as nat),
        decreases end,
    {
        let ghost p = chars@.take(end as int);
        if end <= floor {
            break ;
        }
        assert(p.last() == chars@[end - 1]);
        if chars[end - 1] == '/' {
            assert(p.drop_last() =~= chars@.take(end - 1));
            end -= 1;
        } else if chars[end - 1] == '.' && end - 1 == floor {
            assert(p.drop_last() =~= chars@.take(end - 1));
            end -= 1;
            break ;
        } else if chars[end - 1] == '.' && end - 1 > floor && chars[end - 2] == '/' {
            assert(p[p.len() - 2] == chars@[end - 2]);
            assert(p.take(p.len() - 2) =~= chars@.take(end - 2));
            end -= 2;
        } else {
            if chars[end - 1] == '.' && end - 1 > floor {
                assert(p[p.len() - 2] == chars@[end - 2]);
            }
            break ;
        }
    }
    end
}

/// Where the last component of the first `end` characters of `chars`
/// begins.
fn start_of_name(chars: &Vec<char>, end: usize) -> (start: usize)
    requires
        end <= chars@.len(),
    ensures
        start <= end,
        start == after_last_slash(chars@.take(end as int)),
{
    let mut start: usize = end;
    while start > 0 && chars[start - 1] != '/'
        invariant
            start <= end <= chars@.len(),
            after_last_slash(chars@.take(end as int)) == after_last_slash(
                chars@.take(start as int),
            ),
        decreases start,
    {
        assert(chars@.take(start as int).last() == chars@[start - 1]);
        assert(chars@.take(start as int).drop_last() =~= chars@.take(start - 1));
        start -= 1;
    }
    proof {
        if start > 0 {
            assert(chars@.take(start as int).last() == chars@[start - 1]);
        }
    }
    start
}

/// What is known of a path: where its last component begins and ends,
/// whether that names a file, and where its directory ends.
struct Parts {
    named: bool,
    start: usize,
    end: usize,
    parent_end: usize,
}

/// Takes the path `chars` apart.
fn take_apart(chars: &Vec<char>) -> (parts: Parts)
    ensures
        parts.named == has_file_name(chars@),
        parts.start <= parts.end <= chars@.len(),
        parts.parent_end <= parts.start,
        chars@.take(parts.end as int) == to_name_end(chars@),
        parts.start == name_start(chars@),
        chars@.subrange(parts.start as int, parts.end as int) == last_component(chars@),
        chars@.take(parts.parent_end as int) == parent_of(chars@),
{
    let floor = floor_of(chars);
    assert(chars@.take(chars@.len() as int) =~= chars@);
    let end = trimmed_len(chars, chars.len(), floor);
    let start = start_of_name(chars, end);
    let ghost t = chars@.take(end as int);
    assert(t.skip(start as int) =~= chars@.subrange(start as int, end as int));
    let dots = end - start == 2 && chars[start] == '.' && chars[start + 1] == '.';
    proof {
        let name = chars@.subrange(start as int, end as int);
        if dots {
            assert(name =~= seq!['.', '.']);
        } else if name == seq!['.', '.'] {
            assert(name.len() == 2 && name[0] == '.' && name[1] == '.');
        }
    }
    let named = end > floor && !dots;
    let cut = if start > floor {
        start - 1
    } else {
        start
    };
    assert(t.take(cut as int) =~= chars@.take(cut as int));
    let parent_end = trimmed_len(chars, cut, floor);
    Parts { named, start, end, parent_end }
}

/// The temporary file that is written before it replaces the file at
/// `path`.
pub fn tmp_path_for(path: &str) -> (tmp: String)
    ensures
        tmp@ == tmp_path_text(path@),
{
    let chars = chars_of(path);
    let parts = take_apart(&chars);
    if parts.named {
        let mut tmp = string_of(&chars, 0, parts.end);
        assert(chars@.subrange(0, parts.end as int) =~= chars@.take(parts.end as int));
        tmp.append(".tmp");
        tmp
    } else {
        String::from_str(path)
    }
}

/// The file on which the writers of the file at `path` take their lock.
pub fn lock_path_for(path: &str) -> (lock: String)
    ensures
        lock@ == lock_path_text(path@),
{
    proof {
        reveal_strlit("/");
    }
    let chars = chars_of(path);
    let parts = take_apart(&chars);
    if parts.named {
        let mut lock = string_of(&chars, 0, parts.parent_end);
        assert(chars@.subrange(0, parts.parent_end as int) =~= chars@.take(
            parts.parent_end as int,
        ));
        if parts.parent_end > 0 && chars[parts.parent_end - 1] != '/' {
            lock.append("/");
        }
        lock.append(string_of(&chars, parts.start, parts.end).as_str());
        lock.append(".lock");
        proof {
            let dir = parent_of(chars@);
            let name = last_component(chars@);
            assert("/"@ =~= seq!['/']);
            if dir.len() > 0 {
                assert(dir.last() == chars@[parts.parent_end - 1]);
            }
            assert(lock@ =~= joined(dir, name + ".lock"@));
        }
        lock
    } else {
        let mut lock = String::from_str(path);
        let n = chars.len();
        if n > 0 && chars[n - 1] != '/' {
            lock.append("/");
        }
        lock.append("index.json.lock");
        proof {
            assert("/"@ =~= seq!['/']);
            assert(lock@ =~= joined(path@, "index.json.lock"@));
        }
        lock
    }
}

} // verus!
