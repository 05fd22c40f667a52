//! Directory synthesis: every file entry's ancestor chain of
//! directories must appear in the final sequence, so missing
//! intermediate directories are inserted as zero-size entries.

use vstd::prelude::*;
use crate::entry::{EntryModel, FileItem, views_of, has_name, no_backslash, wf_entry, entries_wf};
use crate::labels::{strip_trailing_slashes, lemma_strip_trailing, dir_label, dir_label_str};
use crate::parser::contains_name;
use crate::text::concat_str;

verus! {

/// Index of the last slash in `q`, or `-1` if there is none.
pub open spec fn last_slash_pos(q: Seq<char>) -> int
    decreases q.len(),
{
    if q.len() == 0 {
        -1
    } else if q.last() == '/' {
        q.len() - 1
    } else {
        last_slash_pos(q.drop_last())
    }
}

/// A backwards scan that stopped at a slash (or the front) has found
/// the last slash.
pub proof fn lemma_last_slash_at(q: Seq<char>, d: int)
    requires
        0 <= d <= q.len(),
        forall|j: int| d <= j < q.len() ==> q[j] != '/',
        d > 0 ==> q[d - 1] == '/',
    ensures
        last_slash_pos(q) == d - 1,
    decreases q.len(),
{
    if q.len() > d {
        assert(q.last() != '/');
        lemma_last_slash_at(q.drop_last(), d);
    } else {
        if d > 0 {
            assert(q.last() == '/');
        }
    }
}

/// Where the parent of `p` ends within `p` once trailing slashes are
/// ignored: just before the last interior slash.
pub open spec fn parent_cut(p: Seq<char>) -> int {
    if last_slash_pos(strip_trailing_slashes(p)) < 0 {
        0
    } else {
        last_slash_pos(strip_trailing_slashes(p))
    }
}

/// The parent of `p` without its trailing slash; empty when `p` has no
/// parent directory.
pub open spec fn parent_stem(p: Seq<char>) -> Seq<char> {
    strip_trailing_slashes(strip_trailing_slashes(p).take(parent_cut(p)))
}

/// The canonical path of `p`'s parent directory (with its trailing
/// slash), or the empty sequence when `p` is a root-level path.
pub open spec fn parent_dir(p: Seq<char>) -> Seq<char> {
    if parent_stem(p).len() == 0 {
        Seq::empty()
    } else {
        parent_stem(p).push('/')
    }
}

proof fn lemma_strip_len(p: Seq<char>)
    ensures
        strip_trailing_slashes(p).len() <= p.len(),
        strip_trailing_slashes(p).len() > 0 ==> strip_trailing_slashes(p).last() != '/',
        forall|j: int|
            0 <= j < strip_trailing_slashes(p).len() ==> strip_trailing_slashes(p)[j] == p[j],
    decreases p.len(),
{
    if p.len() > 0 && p.last() == '/' {
        lemma_strip_len(p.drop_last());
        assert forall|j: int|
            0 <= j < strip_trailing_slashes(p).len() implies strip_trailing_slashes(p)[j]
            == p[j] by {
            assert(strip_trailing_slashes(p) == strip_trailing_slashes(p.drop_last()));
            assert(strip_trailing_slashes(p.drop_last())[j] == p.drop_last()[j]);
        }
    }
}

proof fn lemma_last_slash_bounds(q: Seq<char>)
    ensures
        -1 <= last_slash_pos(q) < q.len(),
        last_slash_pos(q) >= 0 ==> q[last_slash_pos(q)] == '/',
    decreases q.len(),
{
    if q.len() > 0 && q.last() != '/' {
        lemma_last_slash_bounds(q.drop_last());
    }
}

/// A path's parent directory is strictly shorter than the path.
pub proof fn lemma_parent_dir_shorter(p: Seq<char>)
    ensures
        parent_dir(p).len() > 0 ==> parent_dir(p).len() < p.len(),
{
    if parent_dir(p).len() > 0 {
        let q = strip_trailing_slashes(p);
        lemma_strip_len(p);
        lemma_last_slash_bounds(q);
        let ls = last_slash_pos(q);
        if ls < 0 {
            assert(q.take(0) =~= Seq::<char>::empty());
            assert(parent_stem(p).len() == 0);
        } else {
            assert(q.len() > 0);
            assert(q.last() != '/');
            assert(q[ls] == '/');
            assert(ls < q.len() - 1);
            lemma_strip_len(q.take(ls));
            assert(parent_stem(p).len() <= ls);
            assert(parent_dir(p).len() <= ls + 1);
        }
    }
}

/// The chain of ancestor directories of `p`, nearest first.
pub open spec fn ancestor_chain(p: Seq<char>) -> Seq<Seq<char>>
    decreases p.len(),
    via ancestor_chain_decreases
{
    if parent_dir(p).len() == 0 {
        Seq::empty()
    } else {
        seq![parent_dir(p)] + ancestor_chain(parent_dir(p))
    }
}

#[via_fn]
proof fn ancestor_chain_decreases(p: Seq<char>) {
    lemma_parent_dir_shorter(p);
}

/// A synthesized directory entry: zero size, empty timestamp.
pub open spec fn dir_entry_model(n: Seq<char>) -> EntryModel {
    (EntryModel {
        name: n,
        is_dir: true,
        size: 0,
        modified_date: Seq::empty(),
        type_label: dir_label(),
    })
}

/// Appends a synthesized directory unless the path is already present.
pub open spec fn emit_dir(acc: Seq<EntryModel>, n: Seq<char>) -> Seq<EntryModel> {
    if has_name(acc, n) {
        acc
    } else {
        acc.push(dir_entry_model(n))
    }
}

/// Walks the ancestor chain of `p`, inserting each missing directory.
pub open spec fn add_chain(acc: Seq<EntryModel>, p: Seq<char>) -> Seq<EntryModel>
    decreases p.len(),
    via add_chain_decreases
{
    if parent_dir(p).len() == 0 {
        acc
    } else {
        add_chain(emit_dir(acc, parent_dir(p)), parent_dir(p))
    }
}

#[via_fn]
proof fn add_chain_decreases(acc: Seq<EntryModel>, p: Seq<char>) {
    lemma_parent_dir_shorter(p);
}

/// Walks the ancestor chains of all of `items` in order.
pub open spec fn synthesize_rec(acc: Seq<EntryModel>, items: Seq<EntryModel>) -> Seq<EntryModel>
    decreases items.len(),
{
    if items.len() == 0 {
        acc
    } else {
        synthesize_rec(add_chain(acc, items[0].name), items.drop_first())
    }
}

/// `s` extended with every missing ancestor directory of its entries.
pub open spec fn synthesized(s: Seq<EntryModel>) -> Seq<EntryModel> {
    synthesize_rec(s, s)
}

/// Every ancestor directory of `p` is present in `s`.
pub open spec fn chain_covered(s: Seq<EntryModel>, p: Seq<char>) -> bool {
    forall|k: int| 0 <= k < ancestor_chain(p).len() ==> has_name(s, #[trigger] ancestor_chain(p)[k])
}

/// Every entry's ancestor directories are present in `s`.
pub open spec fn ancestor_closed(s: Seq<EntryModel>) -> bool {
    forall|i: int| 0 <= i < s.len() ==> #[trigger] chain_covered(s, s[i].name)
}

proof fn lemma_prefix_mono_name(a: Seq<EntryModel>, b: Seq<EntryModel>, x: Seq<char>)
    requires
        b.len() >= a.len(),
        forall|j: int| 0 <= j < a.len() ==> b[j] == a[j],
        has_name(a, x),
    ensures
        has_name(b, x),
{
    let i = choose|i: int| 0 <= i < a.len() && a[i].name == x;
    assert(b[i].name == x);
}

proof fn lemma_add_chain_prefix(acc: Seq<EntryModel>, p: Seq<char>)
    ensures
        add_chain(acc, p).len() >= acc.len(),
        forall|j: int| 0 <= j < acc.len() ==> add_chain(acc, p)[j] == acc[j],
    decreases p.len(),
{
    lemma_parent_dir_shorter(p);
    if parent_dir(p).len() > 0 {
        let d = parent_dir(p);
        let acc1 = emit_dir(acc, d);
        assert(forall|j: int| 0 <= j < acc.len() ==> acc1[j] == acc[j]);
        lemma_add_chain_prefix(acc1, d);
        assert(forall|j: int| 0 <= j < acc.len() ==> add_chain(acc1, d)[j] == acc1[j]);
    }
}

proof fn lemma_add_chain_covers(acc: Seq<EntryModel>, p: Seq<char>)
    ensures
        chain_covered(add_chain(acc, p), p),
    decreases p.len(),
{
    lemma_parent_dir_shorter(p);
    if parent_dir(p).len() > 0 {
        let d = parent_dir(p);
        let acc1 = emit_dir(acc, d);
        let r = add_chain(acc1, d);
        assert(has_name(acc1, d)) by {
            if !has_name(acc, d) {
                assert(acc1[acc.len() as int].name == d);
            }
        }
        lemma_add_chain_prefix(acc1, d);
        lemma_prefix_mono_name(acc1, r, d);
        lemma_add_chain_covers(acc1, d);
        assert forall|k: int| 0 <= k < ancestor_chain(p).len() implies has_name(
            r,
            #[trigger] ancestor_chain(p)[k],
        ) by {
            if k > 0 {
                assert(ancestor_chain(p)[k] == ancestor_chain(d)[k - 1]);
            }
        }
    }
}

proof fn lemma_parent_no_backslash(p: Seq<char>)
    requires
        no_backslash(p),
    ensures
        no_backslash(parent_dir(p)),
{
    let q = strip_trailing_slashes(p);
    lemma_strip_len(p);
    let cut = q.take(parent_cut(p));
    lemma_last_slash_bounds(q);
    lemma_strip_len(cut);
    let stem = parent_stem(p);
    assert forall|j: int| 0 <= j < parent_dir(p).len() implies parent_dir(p)[j] != '\\' by {
        if stem.len() > 0 && j < stem.len() {
            assert(stem[j] == cut[j]);
            assert(cut[j] == q[j]);
            assert(q[j] == p[j]);
        }
    }
}

proof fn lemma_add_chain_wf(acc: Seq<EntryModel>, p: Seq<char>)
    requires
        entries_wf(acc),
        no_backslash(p),
    ensures
        entries_wf(add_chain(acc, p)),
    decreases p.len(),
{
    lemma_parent_dir_shorter(p);
    if parent_dir(p).len() > 0 {
        let d = parent_dir(p);
        let acc1 = emit_dir(acc, d);
        lemma_parent_no_backslash(p);
        assert(wf_entry(dir_entry_model(d))) by {
            assert(d.last() == '/');
        }
        assert(entries_wf(acc1)) by {
            if !has_name(acc, d) {
                assert forall|i: int, j: int| 0 <= i < j < acc1.len() implies acc1[i].name
                    != acc1[j].name by {
                    if j == acc1.len() - 1 {
                        assert(acc1[i] == acc[i]);
                        if acc[i].name == d {
                            assert(has_name(acc, d));
                        }
                    }
                }
                assert(forall|i: int| 0 <= i < acc1.len() ==> wf_entry(#[trigger] acc1[i]));
            }
        }
        lemma_add_chain_wf(acc1, d);
    }
}

proof fn lemma_add_chain_new_covered(acc: Seq<EntryModel>, p: Seq<char>)
    ensures
        forall|j: int|
            acc.len() <= j < add_chain(acc, p).len() ==> chain_covered(
                add_chain(acc, p),
                #[trigger] add_chain(acc, p)[j].name,
            ),
    decreases p.len(),
{
    lemma_parent_dir_shorter(p);
    if parent_dir(p).len() > 0 {
        let d = parent_dir(p);
        let acc1 = emit_dir(acc, d);
        let r = add_chain(acc1, d);
        lemma_add_chain_covers(acc, p);
        lemma_add_chain_new_covered(acc1, d);
        assert forall|j: int| acc.len() <= j < r.len() implies chain_covered(
            r,
            #[trigger] r[j].name,
        ) by {
            if j < acc1.len() {
                // the one possibly-new entry of `acc1` is the parent itself
                lemma_add_chain_prefix(acc1, d);
                assert(r[j] == acc1[j]);
                assert(acc1[j] == dir_entry_model(d));
                assert(chain_covered(r, p));
                assert forall|k: int| 0 <= k < ancestor_chain(d).len() implies has_name(
                    r,
                    #[trigger] ancestor_chain(d)[k],
                ) by {
                    assert(ancestor_chain(p)[k + 1] == ancestor_chain(d)[k]);
                }
            }
        }
    }
}

proof fn lemma_synth_rec(acc: Seq<EntryModel>, items: Seq<EntryModel>)
    requires
        entries_wf(acc),
        forall|t: int| 0 <= t < items.len() ==> no_backslash(#[trigger] items[t].name),
    ensures
        entries_wf(synthesize_rec(acc, items)),
        synthesize_rec(acc, items).len() >= acc.len(),
        forall|j: int| 0 <= j < acc.len() ==> synthesize_rec(acc, items)[j] == acc[j],
        forall|t: int|
            0 <= t < items.len() ==> chain_covered(
                synthesize_rec(acc, items),
                #[trigger] items[t].name,
            ),
        forall|j: int|
            acc.len() <= j < synthesize_rec(acc, items).len() ==> chain_covered(
                synthesize_rec(acc, items),
                #[trigger] synthesize_rec(acc, items)[j].name,
            ),
    decreases items.len(),
{
    if items.len() > 0 {
        let p = items[0].name;
        let acc1 = add_chain(acc, p);
        let r = synthesize_rec(acc1, items.drop_first());
        lemma_add_chain_wf(acc, p);
        lemma_add_chain_prefix(acc, p);
        lemma_add_chain_covers(acc, p);
        lemma_add_chain_new_covered(acc, p);
        assert(forall|t: int|
            0 <= t < items.drop_first().len() ==> no_backslash(
                #[trigger] items.drop_first()[t].name,
            ));
        lemma_synth_rec(acc1, items.drop_first());
        // chains already covered in acc1 stay covered in r
        assert forall|x: Seq<char>| has_name(acc1, x) implies has_name(r, x) by {
            lemma_prefix_mono_name(acc1, r, x);
        }
        assert(chain_covered(r, p));
        assert forall|t: int| 0 <= t < items.len() implies chain_covered(
            r,
            #[trigger] items[t].name,
        ) by {
            if t > 0 {
                assert(items.drop_first()[t - 1].name == items[t].name);
            }
        }
        assert forall|j: int| acc.len() <= j < r.len() implies chain_covered(
            r,
            #[trigger] r[j].name,
        ) by {
            if j < acc1.len() {
                assert(r[j] == acc1[j]);
                assert(chain_covered(acc1, acc1[j].name));
            }
        }
    }
}

/// Synthesis keeps the entries it was given, in place, appends only
/// well-formed directory entries with fresh names, and leaves every
/// entry's ancestor chain present in the result.
pub proof fn lemma_synthesized_props(s: Seq<EntryModel>)
    requires
        entries_wf(s),
    ensures
        entries_wf(synthesized(s)),
        ancestor_closed(synthesized(s)),
        synthesized(s).len() >= s.len(),
        forall|j: int| 0 <= j < s.len() ==> synthesized(s)[j] == s[j],
{
    assert(forall|t: int| 0 <= t < s.len() ==> no_backslash(#[trigger] s[t].name));
    lemma_synth_rec(s, s);
    let r = synthesized(s);
    assert forall|i: int| 0 <= i < r.len() implies #[trigger] chain_covered(r, r[i].name) by {
        if i < s.len() {
            assert(r[i] == s[i]);
            assert(chain_covered(r, s[i].name));
        }
    }
}

/// Computes the canonical path of `p`'s parent directory, or `None`
/// for a root-level path.
pub fn parent_dir_of(p: &str) -> (r: Option<String>)
    ensures
        (r is Some) == (parent_dir(p@).len() > 0),
        r is Some ==> r->0@ == parent_dir(p@),
{
    let n = p.unicode_len();
    let mut b: usize = n;
    while b > 0 && p.get_char(b - 1) == '/'
        invariant
            b <= n,
            n == p@.len(),
            forall|j: int| b <= j < n ==> p@[j] == '/',
        decreases b,
    {
        b = b - 1;
    }
    proof {
        lemma_strip_trailing(p@, b as int);
    }
    let ghost q = p@.take(b as int);
    let mut d: usize = b;
    while d > 0 && p.get_char(d - 1) != '/'
        invariant
            d <= b <= n,
            n == p@.len(),
            forall|j: int| d <= j < b ==> p@[j] != '/',
        decreases d,
    {
        d = d - 1;
    }
    proof {
        assert(forall|j: int| d <= j < q.len() ==> q[j] != '/');
        if d > 0 {
            assert(q[d - 1] == p@[d - 1]);
        }
        lemma_last_slash_at(q, d as int);
    }
    if d == 0 {
        proof {
            assert(parent_cut(p@) == 0);
            assert(q.take(0) =~= Seq::<char>::empty());
            assert(parent_stem(p@).len() == 0);
        }
        return None;
    }
    proof {
        assert(last_slash_pos(q) == d - 1);
        assert(parent_cut(p@) == d - 1);
    }
    let mut e: usize = d - 1;
    while e > 0 && p.get_char(e - 1) == '/'
        invariant
            e <= d - 1 <= n,
            n == p@.len(),
            forall|j: int| e <= j < d - 1 ==> p@[j] == '/',
        decreases e,
    {
        e = e - 1;
    }
    proof {
        let cut = q.take(d - 1);
        assert(cut =~= p@.take(d - 1));
        lemma_strip_trailing(p@.take(d - 1), e as int);
        assert(p@.take(d - 1).take(e as int) =~= p@.take(e as int));
        assert(parent_stem(p@) == p@.take(e as int));
    }
    if e == 0 {
        return None;
    }
    let stem = p.substring_char(0, e);
    let r = concat_str(stem, "/");
    proof {
        reveal_strlit("/");
        assert(stem@ =~= p@.take(e as int));
        assert(r@ =~= parent_stem(p@).push('/'));
    }
    Some(r)
}

/// Builds a synthesized directory entry.
fn make_dir_item(name: String) -> (r: FileItem)
    ensures
        r@ == dir_entry_model(name@),
{
    let r = FileItem {
        name: name,
        is_dir: true,
        size: 0,
        modified_date: String::new(),
        type_label: dir_label_str(),
    };
    proof {
        assert(r.modified_date@ =~= Seq::<char>::empty());
    }
    r
}

/// Inserts, for every entry, the ancestors missing from the sequence,
/// each as a zero-size directory entry with an empty timestamp.
pub fn synthesize_dirs(files: &mut Vec<FileItem>)
    ensures
        views_of(final(files)@) == synthesized(views_of(old(files)@)),
{
    let n = files.len();
    let ghost orig = views_of(old(files)@);
    let mut i: usize = 0;
    proof {
        assert(orig.skip(0) =~= orig);
        assert(views_of(files@).take(n as int) =~= orig);
    }
    while i < n
        invariant
            i <= n,
            n == orig.len(),
            files@.len() >= n,
            views_of(files@).take(n as int) == orig,
            synthesized(orig) == synthesize_rec(views_of(files@), orig.skip(i as int)),
        decreases n - i,
    {
        let ghost acc0 = views_of(files@);
        let ghost items = orig.skip(i as int);
        proof {
            assert(items.len() > 0);
            assert(items[0] == orig[i as int]);
            assert(orig[i as int] == views_of(files@).take(n as int)[i as int]);
            assert(items.drop_first() =~= orig.skip(i + 1));
            assert(synthesize_rec(acc0, items) == synthesize_rec(
                add_chain(acc0, items[0].name),
                orig.skip(i + 1),
            ));
        }
        let mut cur: String = files[i].name.clone();
        assert(cur@ == orig[i as int].name);
        loop
            invariant
                0 <= i < n,
                n == orig.len(),
                files@.len() >= n,
                views_of(files@).take(n as int) == orig,
                add_chain(acc0, orig[i as int].name) == add_chain(views_of(files@), cur@),
            ensures
                files@.len() >= n,
                views_of(files@).take(n as int) == orig,
                add_chain(acc0, orig[i as int].name) == views_of(files@),
            decreases cur@.len(),
        {
            let ghost accl = views_of(files@);
            match parent_dir_of(cur.as_str()) {
                None => {
                    proof {
                        assert(add_chain(accl, cur@) == accl);
                    }
                    break;
                },
                Some(dname) => {
                    proof {
                        lemma_parent_dir_shorter(cur@);
                        assert(add_chain(accl, cur@) == add_chain(
                            emit_dir(accl, dname@),
                            dname@,
                        ));
                    }
                    if !contains_name(files, dname.as_str()) {
                        let item = make_dir_item(dname.clone());
                        files.push(item);
                        proof {
                            assert(views_of(files@) =~= accl.push(dir_entry_model(dname@)));
                            assert(views_of(files@) == emit_dir(accl, dname@));
                            assert(views_of(files@).take(n as int) =~= accl.take(n as int));
                        }
                    } else {
                        proof {
                            assert(views_of(files@) == emit_dir(accl, dname@));
                        }
                    }
                    cur = dname;
                },
            }
        }
        i = i + 1;
    }
    proof {
        assert(orig.skip(n as int) =~= Seq::<EntryModel>::empty());
    }
}

} // verus!
