//! How paths are joined.

use vstd::prelude::*;

use crate::functions::path::{
    ascii_lower, drive_len, glue, joined, root_len, same_ignoring_case, separator_after,
};
use crate::types::PathFormat;

verus! {

/// Whether a character is a slash or a backslash.
pub open spec fn is_slash(c: char) -> bool {
    c == '/' || c == '\\'
}

/// Whether a path begins with a character other than a slash and a colon.
pub open spec fn has_letter(path: Seq<char>) -> bool {
    path.len() >= 2 && !is_slash(path[0]) && path[1] == ':'
}

/// Whether a path begins with two slashes.
pub open spec fn has_server(path: Seq<char>) -> bool {
    path.len() >= 2 && is_slash(path[0]) && is_slash(path[1])
}

/// Whether two characters are the same but for the case of ASCII letters.
pub open spec fn same_letter(a: char, b: char) -> bool {
    let (x, y) = (a as int, b as int);
    ||| x == y
    ||| 65 <= x <= 90 && y == x + 32
    ||| 65 <= y <= 90 && x == y + 32
}

/// A POSIX path that starts at the root replaces the path that it is joined to.
/// Any other follows it, after a slash where the first path is not empty and
/// does not end in one.
pub proof fn posix_paths_follow_one_another(a: Seq<char>, b: Seq<char>)
    ensures
        ({
            let r = joined(a, b, PathFormat::Posix);
            if b.len() > 0 && b[0] == '/' {
                r == b
            } else if a.len() == 0 || a.last() == '/' {
                r == a + b
            } else {
                r == a + seq!['/'] + b
            }
        }),
{
    assert(a.push('/') =~= a + seq!['/']);
}

/// A URI that holds a colon and two slashes replaces the one that it is joined
/// to. Any other follows it, after a slash where the first is not empty and does
/// not end in one.
pub proof fn uris_follow_one_another(a: Seq<char>, b: Seq<char>)
    ensures
        ({
            let r = joined(a, b, PathFormat::Uri);
            if exists|i: int|
                0 <= i && i + 3 <= b.len() && #[trigger] b[i] == ':' && b[i + 1] == '/' && b[i + 2] == '/' {
                r == b
            } else if a.len() == 0 || a.last() == '/' {
                r == a + b
            } else {
                r == a + seq!['/'] + b
            }
        }),
{
    assert(a.push('/') =~= a + seq!['/']);
}

/// Where the first separator after a place is.
proof fn lemma_separator_after(path: Seq<char>, from: int)
    requires
        0 <= from,
    ensures
        ({
            let at = separator_after(path, from);
            &&& at <= path.len()
            &&& from <= path.len() ==> from <= at
            &&& at < path.len() ==> from <= at && is_slash(path[at])
            &&& forall|i: int| from <= i < at ==> !is_slash(#[trigger] path[i])
        }),
    decreases path.len() - from,
{
    if from < path.len() && !is_slash(path[from]) {
        lemma_separator_after(path, from + 1);
    }
}

/// Whether the name of a server that starts at the third character of a path,
/// and that of its share, end at a place.
pub open spec fn share_ends(path: Seq<char>, end: int) -> bool {
    exists|server: int|
        {
            &&& 2 <= server <= end <= path.len()
            &&& forall|i: int| 2 <= i < server ==> !is_slash(#[trigger] path[i])
            &&& #[trigger] ends_at(path, server)
            &&& if server == path.len() {
                end == server
            } else {
                &&& server < end
                &&& forall|i: int| server < i < end ==> !is_slash(#[trigger] path[i])
                &&& ends_at(path, end)
            }
        }
}

/// Whether a place is the end of a path or holds a slash.
pub open spec fn ends_at(path: Seq<char>, at: int) -> bool {
    at == path.len() || 0 <= at < path.len() && is_slash(path[at])
}

proof fn lemma_share(path: Seq<char>)
    requires
        has_server(path),
    ensures
        share_ends(path, drive_len(path)),
        2 <= drive_len(path) <= path.len(),
{
    let server = separator_after(path, 2);
    lemma_separator_after(path, 2);
    lemma_separator_after(path, server + 1);
    assert(ends_at(path, server));
}

/// A Windows path with a drive and a root, or on a server where the first path
/// is on none, replaces the first path. One with a root alone keeps the drive
/// of the first path, which is a letter and a colon or a server and its share.
pub proof fn rooted_windows_paths_replace(a: Seq<char>, b: Seq<char>)
    ensures
        ({
            let r = joined(a, b, PathFormat::Windows);
            let only_root = b.len() > 0 && is_slash(b[0]) && !has_server(b);
            &&& has_letter(b) && b.len() > 2 && is_slash(b[2]) ==> r == b
            &&& has_server(b) && !has_server(a) ==> r == b
            &&& only_root && has_letter(a) ==> r == a.take(2) + b
            &&& only_root && has_server(a) ==> exists|end: int|
                share_ends(a, end) && r == #[trigger] a.take(end) + b
            &&& only_root && !has_letter(a) && !has_server(a) ==> r == b
        }),
{
    if has_server(a) {
        lemma_share(a);
    }
    if has_server(b) {
        lemma_share(b);
    }
    let d = drive_len(a);
    let e = drive_len(b);
    if has_server(b) && !has_server(a) {
        let (p, q) = (a.take(d), b.take(e));
        if p.len() == q.len() {
            assert(q[0] == b[0] && p[0] == a[0]);
            assert(ascii_lower(p[0]) != ascii_lower(q[0]));
        }
    }
    if b.len() > 0 && is_slash(b[0]) && !has_server(b) {
        assert(b.skip(0) =~= b);
    }
}

/// A Windows path without a drive and a root follows the first path, after a
/// backslash where the first path is not empty, does not end in a slash and is
/// more than a letter and a colon.
pub proof fn relative_windows_paths_follow(a: Seq<char>, b: Seq<char>)
    requires
        b.len() > 0 ==> !is_slash(b[0]),
        !has_letter(b),
    ensures
        ({
            let r = joined(a, b, PathFormat::Windows);
            &&& !has_server(a) ==> r == if a.len() == 0 || is_slash(a.last()) || a.len() == 2 && has_letter(
                a,
            ) {
                a + b
            } else {
                a + seq!['\\'] + b
            }
            &&& has_server(a) ==> r == a + b || r == a + seq!['\\'] + b
            &&& has_server(a) && is_slash(a.last()) ==> r == a + b
            &&& has_server(a) && !is_slash(a.last()) && a.last() != ':' && b.len() > 0 ==> r == a + seq![
                '\\',
            ] + b
        }),
{
    if has_server(a) {
        lemma_share(a);
    }
    lemma_relative_join(a, b);
}

/// A relative path follows the drive, the root and the rest of the first path.
proof fn lemma_relative_join(a: Seq<char>, b: Seq<char>)
    requires
        b.len() > 0 ==> !is_slash(b[0]),
        !has_letter(b),
        0 <= drive_len(a) <= a.len(),
    ensures
        ({
            let r = joined(a, b, PathFormat::Windows);
            let bare = drive_len(a) == a.len();
            if a.len() == 0 || is_slash(a.last()) || bare && (b.len() == 0 || a.last() == ':') {
                r == a + b
            } else {
                r == a + seq!['\\'] + b
            }
        }),
{
    let d = drive_len(a);
    let n = root_len(a);
    let drive = a.take(d);
    let root = a.subrange(d, d + n);
    let rest = a.skip(d + n);
    let r = joined(a, b, PathFormat::Windows);
    assert(b.skip(0) =~= b);
    assert(drive_len(b) == 0 && root_len(b) == 0);
    assert(a =~= drive + root + rest);
    let tail = glue(rest, '\\') + b;
    if d == a.len() {
        assert(rest =~= seq![] && root =~= seq![]);
        assert(tail =~= b);
        if d > 0 {
            assert(drive.last() == a.last());
        }
        assert(drive =~= a);
        assert(drive + root + tail =~= a + b);
        assert(drive.push('\\') + tail =~= a + seq!['\\'] + b);
    } else if n == 1 {
        assert(root.len() == 1);
        assert(r == drive + root + tail);
        if rest.len() == 0 {
            assert(tail =~= b);
            assert(a.last() == a[d]);
            assert(r =~= a + b);
        } else {
            assert(rest.last() == a.last());
            if is_slash(a.last()) {
                assert(r =~= a + b);
            } else {
                assert(r =~= a + seq!['\\'] + b);
            }
        }
    } else {
        assert(root =~= seq![]);
        assert(rest.last() == a.last());
        if has_server(a) {
            lemma_share(a);
        }
        assert(d == 0 || d == 2 && drive.last() == ':');
        assert(r == drive + root + tail);
        if is_slash(a.last()) {
            assert(r =~= a + b);
        } else {
            assert(r =~= a + seq!['\\'] + b);
        }
    }
}

/// A Windows path with a drive and no root follows the first path where that is
/// on the same drive, whatever the case of its letter, and replaces it where it
/// is on another or on none.
pub proof fn windows_paths_stay_on_their_drive(a: Seq<char>, b: Seq<char>)
    requires
        has_letter(b),
        b.len() > 2 ==> !is_slash(b[2]),
    ensures
        ({
            let r = joined(a, b, PathFormat::Windows);
            if has_letter(a) && same_letter(a[0], b[0]) {
                if a.len() == 2 || is_slash(a.last()) {
                    r == b.take(2) + a.skip(2) + b.skip(2)
                } else {
                    r == b.take(2) + a.skip(2) + seq!['\\'] + b.skip(2)
                }
            } else {
                r == b
            }
        }),
{
    if has_server(a) {
        lemma_share(a);
    }
    let r = joined(a, b, PathFormat::Windows);
    let d = drive_len(a);
    let (p, q) = (a.take(d), b.take(2));
    assert(q[0] == b[0] && q[1] == ':');
    if has_letter(a) {
        assert(p[0] == a[0] && p[1] == ':');
        lemma_case(a[0], b[0]);
        if same_letter(a[0], b[0]) {
            assert(same_ignoring_case(p, q));
            let rest = a.skip(2 + root_len(a));
            if rest.len() > 0 {
                assert(rest.last() == a.last());
            }
            assert(q.last() == ':');
            if a.len() == 2 || is_slash(a.last()) {
                assert(r =~= b.take(2) + a.skip(2) + b.skip(2));
            } else {
                assert(r =~= b.take(2) + a.skip(2) + seq!['\\'] + b.skip(2));
            }
        } else {
            assert(ascii_lower(p[0]) != ascii_lower(q[0]));
        }
    } else if p.len() == q.len() {
        assert(p[0] == a[0]);
        assert(is_slash(a[0]));
        assert(ascii_lower(p[0]) != ascii_lower(q[0])
            || ascii_lower(p[1]) != ascii_lower(q[1]));
    }
}

proof fn lemma_case(a: char, b: char)
    ensures
        ascii_lower(a) == ascii_lower(b) <==> same_letter(
            a,
            b,
        ),
{
}

} // verus!
