//! Joining of paths.

use vstd::prelude::*;

use crate::text::{chars_of, text_of};
use crate::types::PathFormat;

verus! {

/// Whether a character separates the components of a Windows path.
pub open spec fn is_separator(c: char) -> bool {
    c == '/' || c == '\\'
}

/// The first separator at or after `from`, or the end of the path.
pub open spec fn separator_after(path: Seq<char>, from: int) -> int
    decreases path.len() - from,
{
    if from >= path.len() {
        path.len() as int
    } else if is_separator(path[from]) {
        from
    } else {
        separator_after(path, from + 1)
    }
}

/// The length of the drive of a Windows path: a letter and a colon, or a
/// server and its share.
pub open spec fn drive_len(path: Seq<char>) -> int {
    if path.len() >= 2 && is_separator(path[0]) && is_separator(path[1]) {
        let server = separator_after(path, 2);
        separator_after(path, server + 1)
    } else if path.len() >= 2 && !is_separator(path[0]) && path[1] == ':' {
        2
    } else {
        0
    }
}

/// The length of the separator that roots a Windows path.
pub open spec fn root_len(path: Seq<char>) -> int {
    let drive = drive_len(path);
    if drive < path.len() && is_separator(path[drive]) {
        1
    } else {
        0
    }
}

pub open spec fn ascii_lower(c: char) -> char {
    if 'A' <= c <= 'Z' {
        (c as u32 + 32) as char
    } else {
        c
    }
}

/// Whether two texts are the same but for the case of ASCII letters.
pub open spec fn same_ignoring_case(a: Seq<char>, b: Seq<char>) -> bool {
    &&& a.len() == b.len()
    &&& forall|i: int| 0 <= i < a.len() ==> ascii_lower(#[trigger] a[i]) == ascii_lower(b[i])
}

/// The separator needed between a first path and what follows it.
pub open spec fn glue(path: Seq<char>, separator: char) -> Seq<char> {
    if path.len() == 0 || (if separator == '\\' {
        is_separator(path.last())
    } else {
        path.last() == separator
    }) {
        path
    } else {
        path.push(separator)
    }
}

/// A Windows path joined to another: a rooted second path replaces the first
/// but for its drive, and a second path on another drive replaces it whole.
pub open spec fn windows_join(a: Seq<char>, b: Seq<char>) -> Seq<char> {
    let a_drive = a.take(drive_len(a));
    let a_root = a.subrange(drive_len(a), drive_len(a) + root_len(a));
    let a_rest = a.skip(drive_len(a) + root_len(a));
    let b_drive = b.take(drive_len(b));
    let b_tail = b.skip(drive_len(b));
    if root_len(b) > 0 {
        if b_drive.len() > 0 || a_drive.len() == 0 {
            b
        } else {
            a_drive + b_tail
        }
    } else if b_drive.len() > 0 && !same_ignoring_case(a_drive, b_drive) {
        b
    } else {
        let drive = if b_drive.len() > 0 {
            b_drive
        } else {
            a_drive
        };
        let rest = glue(a_rest, '\\') + b_tail;
        if rest.len() > 0 && a_root.len() == 0 && drive.len() > 0 && drive.last() != ':'
            && !is_separator(drive.last()) {
            drive.push('\\') + rest
        } else {
            drive + a_root + rest
        }
    }
}

/// Whether a path names a scheme.
pub open spec fn has_scheme(path: Seq<char>) -> bool {
    exists|i: int|
        0 <= i && i + 3 <= path.len() && #[trigger] path[i] == ':' && path[i + 1] == '/' && path[i + 2]
            == '/'
}

/// Two paths joined under a format.
pub open spec fn joined(a: Seq<char>, b: Seq<char>, format: PathFormat) -> Seq<char> {
    match format {
        PathFormat::Posix => if b.len() > 0 && b[0] == '/' {
            b
        } else {
            glue(a, '/') + b
        },
        PathFormat::Windows => windows_join(a, b),
        PathFormat::Uri => if has_scheme(b) {
            b
        } else {
            glue(a, '/') + b
        },
    }
}

fn separator(c: char) -> (r: bool)
    ensures
        r == is_separator(c),
{
    c == '/' || c == '\\'
}

fn find_separator(path: &Vec<char>, from: usize) -> (r: usize)
    ensures
        r == separator_after(path@, from as int),
        r <= path@.len(),
        from <= path@.len() ==> from <= r,
{
    if from >= path.len() {
        return path.len();
    }
    let mut i: usize = from;
    while i < path.len() && !separator(path[i])
        invariant
            from <= i <= path@.len(),
            separator_after(path@, from as int) == separator_after(path@, i as int),
        decreases path@.len() - i,
    {
        i = i + 1;
    }
    i
}

fn find_drive(path: &Vec<char>) -> (r: usize)
    ensures
        r == drive_len(path@),
        r <= path@.len(),
{
    if path.len() >= 2 && separator(path[0]) && separator(path[1]) {
        let server: usize = find_separator(path, 2);
        if server == path.len() {
            server
        } else {
            find_separator(path, server + 1)
        }
    } else if path.len() >= 2 && !separator(path[0]) && path[1] == ':' {
        2
    } else {
        0
    }
}

fn find_root(path: &Vec<char>, drive: usize) -> (r: usize)
    requires
        drive == drive_len(path@),
        drive <= path@.len(),
    ensures
        r == root_len(path@),
        drive + r <= path@.len(),
{
    if drive < path.len() && separator(path[drive]) {
        1
    } else {
        0
    }
}

fn to_lower(c: char) -> (r: char)
    ensures
        r == ascii_lower(c),
{
    if 'A' <= c && c <= 'Z' {
        ((c as u8) + 32) as char
    } else {
        c
    }
}

/// Whether the first `a_len` and `b_len` characters are the same but for case.
fn same_prefix(a: &Vec<char>, a_len: usize, b: &Vec<char>, b_len: usize) -> (r: bool)
    requires
        a_len <= a@.len(),
        b_len <= b@.len(),
    ensures
        r == same_ignoring_case(a@.take(a_len as int), b@.take(b_len as int)),
{
    if a_len != b_len {
        return false;
    }
    let mut i: usize = 0;
    while i < a_len
        invariant
            i <= a_len,
            a_len == b_len,
            a_len <= a@.len(),
            b_len <= b@.len(),
            forall|j: int| 0 <= j < i ==> ascii_lower(#[trigger] a@[j]) == ascii_lower(b@[j]),
        decreases a_len - i,
    {
        if to_lower(a[i]) != to_lower(b[i]) {
            assert(ascii_lower(a@.take(a_len as int)[i as int]) != ascii_lower(
                b@.take(b_len as int)[i as int],
            ));
            return false;
        }
        i = i + 1;
    }
    proof {
        assert forall|j: int| 0 <= j < a_len implies ascii_lower(
            #[trigger] a@.take(a_len as int)[j],
        ) == ascii_lower(b@.take(b_len as int)[j]) by {
            assert(ascii_lower(a@[j]) == ascii_lower(b@[j]));
        }
    }
    true
}

/// Appends a path and the separator that it needs.
fn push_glued(out: &mut String, path: &Vec<char>, from: usize, mark: char)
    requires
        from <= path@.len(),
    ensures
        final(out)@ == old(out)@ + glue(path@.skip(from as int), mark),
{
    let end: usize = path.len();
    out.append(text_of(path, from, end).as_str());
    assert(path@.subrange(from as int, end as int) =~= path@.skip(from as int));
    if from < end {
        let last = path[end - 1];
        let separated = if mark == '\\' {
            separator(last)
        } else {
            last == mark
        };
        if !separated {
            out.push(mark);
        }
    }
}

fn join_windows(a: &Vec<char>, b: &Vec<char>) -> (r: String)
    ensures
        r@ == windows_join(a@, b@),
{
    let a_drive: usize = find_drive(a);
    let a_root: usize = find_root(a, a_drive);
    let b_drive: usize = find_drive(b);
    let b_root: usize = find_root(b, b_drive);
    let a_end: usize = a.len();
    let b_end: usize = b.len();
    proof {
        assert(b@.subrange(0, b_end as int) =~= b@);
        assert(b@.subrange(b_drive as int, b_end as int) =~= b@.skip(b_drive as int));
        assert(a@.subrange(0, a_drive as int) =~= a@.take(a_drive as int));
        assert(b@.subrange(0, b_drive as int) =~= b@.take(b_drive as int));
    }
    if b_root > 0 {
        if b_drive > 0 || a_drive == 0 {
            return text_of(b, 0, b_end);
        }
        return text_of(a, 0, a_drive).concat(text_of(b, b_drive, b_end).as_str());
    }
    if b_drive > 0 && !same_prefix(a, a_drive, b, b_drive) {
        return text_of(b, 0, b_end);
    }
    let mut out = if b_drive > 0 {
        text_of(b, 0, b_drive)
    } else {
        text_of(a, 0, a_drive)
    };
    let ghost drive = out@;
    let last = if b_drive > 0 {
        b[b_drive - 1]
    } else if a_drive > 0 {
        a[a_drive - 1]
    } else {
        ':'
    };
    let rest_from: usize = a_drive + a_root;
    if (rest_from < a_end || b_drive < b_end) && a_root == 0 && last != ':' && !separator(last) {
        out.push('\\');
    } else {
        out.append(text_of(a, a_drive, rest_from).as_str());
    }
    let ghost before = out@;
    push_glued(&mut out, a, rest_from, '\\');
    out.append(text_of(b, b_drive, b_end).as_str());
    proof {
        let rest = glue(a@.skip(rest_from as int), '\\') + b@.skip(b_drive as int);
        assert(out@ =~= before + rest);
        assert(drive.len() > 0 ==> last == drive.last());
        assert(a_root == 0 ==> a@.subrange(a_drive as int, rest_from as int) =~= seq![]);
        assert(drive + seq![] + rest =~= drive + rest);
    }
    out
}

/// Whether a path names a scheme.
fn names_scheme(path: &Vec<char>) -> (r: bool)
    ensures
        r == has_scheme(path@),
{
    let mut i: usize = 0;
    while i < path.len() && path.len() - i >= 3
        invariant
            i <= path@.len(),
            forall|j: int|
                0 <= j < i && j + 3 <= path@.len() ==> !(#[trigger] path@[j] == ':' && path@[j + 1]
                    == '/' && path@[j + 2] == '/'),
        decreases path@.len() - i,
    {
        if path[i] == ':' && path[i + 1] == '/' && path[i + 2] == '/' {
            return true;
        }
        i = i + 1;
    }
    false
}

/// Joins two paths.
pub fn join(a: &str, b: &str, format: PathFormat) -> (r: String)
    ensures
        r@ == joined(a@, b@, format),
{
    let first = chars_of(a);
    let second = chars_of(b);
    proof {
        assert(first@.skip(0) =~= first@);
    }
    let replaced = match format {
        PathFormat::Posix => second.len() > 0 && second[0] == '/',
        PathFormat::Windows => return join_windows(&first, &second),
        PathFormat::Uri => names_scheme(&second),
    };
    if replaced {
        return b.to_owned();
    }
    let mut out = String::new();
    push_glued(&mut out, &first, 0, '/');
    out.append(b);
    out
}

} // verus!
