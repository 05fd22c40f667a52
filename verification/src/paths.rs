//! Path computations for the mutation planner: rename and move
//! destinations, and folder-path validation.

use vstd::prelude::*;
use crate::labels::strip_trailing_slashes;
use crate::labels::lemma_strip_trailing;
use crate::text::{concat_str, trim_str, trimmed};
use crate::tree::{last_slash_pos, lemma_last_slash_at};

verus! {

/// The destination a rename computes: the parent directory of
/// `old_path` is kept and the leaf name replaced; a root-level path
/// becomes just the new name, with no leading separator.
pub open spec fn rename_dest(old_path: Seq<char>, new_name: Seq<char>) -> Seq<char> {
    if last_slash_pos(old_path) >= 0 {
        old_path.take(last_slash_pos(old_path) + 1) + new_name
    } else {
        new_name
    }
}

/// The leaf of `p`: everything after the last slash, or all of `p`
/// when it has none.
pub open spec fn move_leaf(p: Seq<char>) -> Seq<char> {
    p.skip(last_slash_pos(p) + 1)
}

/// The destination a move computes for one entry: the destination
/// directory, without its trailing slashes, joined to the entry's leaf
/// name; an empty destination means the archive root.
pub open spec fn move_dest(p: Seq<char>, destination: Seq<char>) -> Seq<char> {
    if destination.len() == 0 {
        move_leaf(p)
    } else {
        strip_trailing_slashes(destination).push('/') + move_leaf(p)
    }
}

/// A backwards scan that stopped at a slash (or the front) has found
/// the leaf.
pub proof fn lemma_leaf_scan(p: Seq<char>, d: int)
    requires
        0 <= d <= p.len(),
        forall|j: int| d <= j < p.len() ==> p[j] != '/',
        d > 0 ==> p[d - 1] == '/',
    ensures
        move_leaf(p) == p.skip(d),
{
    lemma_last_slash_at(p, d);
}

/// Computes the rename destination: `old_path`'s parent kept, leaf
/// replaced by `new_name`.
pub fn compute_rename_dest(old_path: &str, new_name: &str) -> (r: String)
    ensures
        r@ == rename_dest(old_path@, new_name@),
{
    let n = old_path.unicode_len();
    let mut d: usize = n;
    while d > 0 && old_path.get_char(d - 1) != '/'
        invariant
            d <= n,
            n == old_path@.len(),
            forall|j: int| d <= j < n ==> old_path@[j] != '/',
        decreases d,
    {
        d = d - 1;
    }
    proof {
        lemma_last_slash_at(old_path@, d as int);
    }
    if d == 0 {
        String::from_str(new_name)
    } else {
        let parent = old_path.substring_char(0, d);
        let r = concat_str(parent, new_name);
        proof {
            assert(parent@ =~= old_path@.take(d as int));
        }
        r
    }
}

/// Computes the destination path of one moved or copied entry.
pub fn compute_move_dest(p: &str, destination: &str) -> (r: String)
    ensures
        r@ == move_dest(p@, destination@),
{
    let n = p.unicode_len();
    let mut d: usize = n;
    while d > 0 && p.get_char(d - 1) != '/'
        invariant
            d <= n,
            n == p@.len(),
            forall|j: int| d <= j < n ==> p@[j] != '/',
        decreases d,
    {
        d = d - 1;
    }
    proof {
        lemma_last_slash_at(p@, d as int);
    }
    let leaf = p.substring_char(d, n);
    proof {
        assert(leaf@ =~= move_leaf(p@));
    }
    let dn = destination.unicode_len();
    if dn == 0 {
        return String::from_str(leaf);
    }
    let mut b: usize = dn;
    while b > 0 && destination.get_char(b - 1) == '/'
        invariant
            b <= dn,
            dn == destination@.len(),
            forall|j: int| b <= j < dn ==> destination@[j] == '/',
        decreases b,
    {
        b = b - 1;
    }
    proof {
        lemma_strip_trailing(destination@, b as int);
    }
    let mut r = String::from_str(destination.substring_char(0, b));
    r.append("/");
    r.append(leaf);
    proof {
        reveal_strlit("/");
        assert(r@ =~= strip_trailing_slashes(destination@).push('/') + move_leaf(p@));
    }
    r
}

/// `c` separates path segments.
pub open spec fn is_sep(c: char) -> bool {
    c == '/' || c == '\\'
}

/// A parent-traversal segment `..` stands at position `i` of `s`,
/// bounded by separators or the ends of the path.
pub open spec fn dotdot_at(s: Seq<char>, i: int) -> bool {
    0 <= i && i + 2 <= s.len() && s[i] == '.' && s[i + 1] == '.' && (i == 0 || is_sep(s[i - 1]))
        && (i + 2 == s.len() || is_sep(s[i + 2]))
}

/// `s` holds a `..` segment, regardless of surrounding slashes.
pub open spec fn has_dotdot_segment(s: Seq<char>) -> bool {
    exists|i: int| dotdot_at(s, i)
}

/// `s` with leading and trailing separators removed.
pub open spec fn trim_seps(s: Seq<char>) -> Seq<char>
    decreases s.len(),
{
    if s.len() > 0 && is_sep(s[0]) {
        trim_seps(s.drop_first())
    } else if s.len() > 0 && is_sep(s.last()) {
        trim_seps(s.drop_last())
    } else {
        s
    }
}

/// The folder path as validation sees it: whitespace trimmed, then
/// surrounding separators trimmed.
pub open spec fn cleaned_folder(s: Seq<char>) -> Seq<char> {
    trim_seps(trimmed(s))
}

/// A folder path is acceptable when, after cleaning, something is left
/// and no `..` segment remains.
pub open spec fn folder_path_ok(s: Seq<char>) -> bool {
    cleaned_folder(s).len() > 0 && !has_dotdot_segment(cleaned_folder(s))
}

proof fn lemma_trim_seps_scan(s: Seq<char>, a: int, b: int)
    requires
        0 <= a <= b <= s.len(),
        forall|j: int| 0 <= j < a ==> is_sep(s[j]),
        forall|j: int| b <= j < s.len() ==> is_sep(s[j]),
        a < b ==> !is_sep(s[a]),
        a < b ==> !is_sep(s[b - 1]),
        a == b ==> a == 0 || b == s.len(),
    ensures
        trim_seps(s) == s.subrange(a, b),
    decreases s.len(),
{
    if a > 0 {
        assert(is_sep(s[0]));
        lemma_trim_seps_scan(s.drop_first(), a - 1, b - 1);
        assert(s.drop_first().subrange(a - 1, b - 1) =~= s.subrange(a, b));
    } else if b < s.len() {
        assert(is_sep(s.last()));
        if s.len() > 0 && is_sep(s[0]) {
            // a == 0 and s[0] is a separator: then a < b is impossible,
            // so a == b == 0 and the whole string is separators
            assert(a == b == 0);
            lemma_trim_seps_scan(s.drop_first(), 0, 0);
            assert(s.drop_first().subrange(0, 0) =~= s.subrange(0, 0));
        } else {
            lemma_trim_seps_scan(s.drop_last(), a, b);
            assert(s.drop_last().subrange(a, b) =~= s.subrange(a, b));
        }
    } else {
        assert(s.subrange(a, b) =~= s);
    }
}

/// Validates a folder path: whitespace and surrounding separators are
/// trimmed; an empty remainder or a `..` segment is rejected. On
/// success the cleaned path is returned with its trailing slash.
pub fn validate_folder_path(folder_path: &str) -> (r: Result<String, String>)
    ensures
        (r is Ok) == folder_path_ok(folder_path@),
        r is Ok ==> r->Ok_0@ == cleaned_folder(folder_path@).push('/'),
        r is Err ==> r->Err_0@ == "Invalid folder path provided: "@ + folder_path@,
{
    let t = trim_str(folder_path);
    let n = t.unicode_len();
    let mut a: usize = 0;
    while a < n && (t.get_char(a) == '/' || t.get_char(a) == '\\')
        invariant
            a <= n,
            n == t@.len(),
            forall|j: int| 0 <= j < a ==> is_sep(t@[j]),
        decreases n - a,
    {
        a = a + 1;
    }
    let mut b: usize = n;
    while b > a && (t.get_char(b - 1) == '/' || t.get_char(b - 1) == '\\')
        invariant
            a <= b <= n,
            n == t@.len(),
            forall|j: int| b <= j < n ==> is_sep(t@[j]),
        decreases b,
    {
        b = b - 1;
    }
    proof {
        if a == b && 0 < a && b < n {
            // cannot happen: a stopped at a non-separator or at n
            assert(!is_sep(t@[a as int]) || a == n);
            assert(is_sep(t@[b as int]));
            assert(false);
        }
        lemma_trim_seps_scan(t@, a as int, b as int);
    }
    let cleaned = t.substring_char(a, b);
    proof {
        assert(cleaned@ =~= cleaned_folder(folder_path@));
    }
    if b == a {
        return Err(concat_str("Invalid folder path provided: ", folder_path));
    }
    // scan for a `..` segment
    let cn = b - a;
    let mut i: usize = 0;
    while cn >= 2 && i <= cn - 2
        invariant
            i <= cn,
            cn == cleaned@.len(),
            cleaned@ == cleaned_folder(folder_path@),
            forall|j: int| 0 <= j < i ==> !dotdot_at(cleaned@, j),
        decreases cn - i,
    {
        let c0 = cleaned.get_char(i);
        let c1 = cleaned.get_char(i + 1);
        let left_ok = i == 0 || {
            let p = cleaned.get_char(i - 1);
            p == '/' || p == '\\'
        };
        let right_ok = i == cn - 2 || {
            let q = cleaned.get_char(i + 2);
            q == '/' || q == '\\'
        };
        if c0 == '.' && c1 == '.' && left_ok && right_ok {
            assert(dotdot_at(cleaned@, i as int));
            return Err(concat_str("Invalid folder path provided: ", folder_path));
        }
        proof {
            assert(!dotdot_at(cleaned@, i as int));
        }
        i = i + 1;
    }
    proof {
        assert forall|j: int| !dotdot_at(cleaned@, j) by {
            if 0 <= j && j + 2 <= cleaned@.len() {
                assert(j < i);
            }
        }
    }
    let mut out = String::from_str(cleaned);
    out.append("/");
    proof {
        reveal_strlit("/");
        assert(out@ =~= cleaned_folder(folder_path@).push('/'));
    }
    Ok(out)
}

} // verus!
