//! The listing parser: turns the external tool's detailed-list output
//! (blank-line-separated blocks of `Key = Value` lines) into a
//! deduplicated, structurally complete, sorted sequence of entries.
//!
//! The parser is a two-phase line machine: field lines fill the block
//! being collected, a blank line closes it into a pending entry, and
//! the next `Path = ` line (or the end of input) commits the pending
//! entry, discarding duplicates of an already-seen canonical path.

use vstd::prelude::*;
use crate::entry::{
    EntryModel, FileItem, views_of, has_name, no_backslash, wf_entry, entries_wf,
};
use crate::labels::{extension_spec, file_label_spec, dir_label};
use crate::labels::{file_type_label, dir_label_str, extension_of};
use crate::text::{
    has_prefix_seq, strip_prefix_all, normalized_slashes, trimmed_lines, parse_u64_spec,
    has_prefix, strip_prefix_all_str, normalize_slashes, split_trimmed_lines, parse_u64_str,
    str_eq, ends_with_char,
};

verus! {

/// `s` ends with a slash.
pub open spec fn ends_slash(s: Seq<char>) -> bool {
    s.len() > 0 && s.last() == '/'
}

/// The attribute string marks a directory.
pub open spec fn attrs_mark_dir(a: Seq<char>) -> bool {
    a.len() > 0 && a[0] == 'D'
}

/// The state of the line machine.
pub struct ParseState {
    pub pending: Option<EntryModel>,
    pub path: Seq<char>,
    pub size: u64,
    pub is_dir: bool,
    pub date: Seq<char>,
    pub attrs: Seq<char>,
    pub emitted: Seq<EntryModel>,
}

/// The machine's starting state.
pub open spec fn init_state() -> ParseState {
    (ParseState {
        pending: None,
        path: Seq::empty(),
        size: 0,
        is_dir: false,
        date: Seq::empty(),
        attrs: Seq::empty(),
        emitted: Seq::empty(),
    })
}

/// A block path in canonical form: separators normalized, a trailing
/// slash added for directories.
pub open spec fn canon_name(n: Seq<char>, d: bool) -> Seq<char> {
    if d && !ends_slash(normalized_slashes(n)) {
        normalized_slashes(n).push('/')
    } else {
        normalized_slashes(n)
    }
}

/// An entry with its name put in canonical form.
pub open spec fn canon_entry(e: EntryModel) -> EntryModel {
    (EntryModel {
        name: canon_name(e.name, e.is_dir),
        is_dir: e.is_dir,
        size: e.size,
        modified_date: e.modified_date,
        type_label: e.type_label,
    })
}

/// Appends an entry unless its canonical path was already seen; the
/// first occurrence wins.
pub open spec fn emit(acc: Seq<EntryModel>, e: EntryModel) -> Seq<EntryModel> {
    if has_name(acc, canon_entry(e).name) {
        acc
    } else {
        acc.push(canon_entry(e))
    }
}

/// The entries committed once the machine stops: the pending entry, if
/// any, joins the emitted ones.
pub open spec fn finalize_state(st: ParseState) -> Seq<EntryModel> {
    match st.pending {
        None => st.emitted,
        Some(e) => emit(st.emitted, e),
    }
}

/// The directory-ness a closed block settles on: the explicit flag, or
/// — for paths without an extension — a trailing slash or the `D`
/// attribute marker.
pub open spec fn block_is_dir(path: Seq<char>, d: bool, attrs: Seq<char>) -> bool {
    d || (extension_spec(path) is None && (ends_slash(path) || attrs_mark_dir(attrs)))
}

/// The label a closed block gets.
pub open spec fn block_label(path: Seq<char>, d: bool, attrs: Seq<char>) -> Seq<char> {
    if block_is_dir(path, d, attrs) {
        dir_label()
    } else {
        file_label_spec(path)
    }
}

/// The path a closed block records: a trailing slash is added when the
/// block settled on being a directory.
pub open spec fn block_path(path: Seq<char>, d: bool, attrs: Seq<char>) -> Seq<char> {
    if block_is_dir(path, d, attrs) && !ends_slash(path) {
        path.push('/')
    } else {
        path
    }
}

/// The entry a closed block yields.
pub open spec fn block_entry(
    path: Seq<char>,
    size: u64,
    d: bool,
    date: Seq<char>,
    attrs: Seq<char>,
) -> EntryModel {
    (EntryModel {
        name: block_path(path, d, attrs),
        is_dir: ends_slash(block_path(path, d, attrs)) || attrs_mark_dir(attrs),
        size: size,
        modified_date: date,
        type_label: block_label(path, d, attrs),
    })
}

/// The parsed size field: unparsable or overflowing values fall back
/// to zero, never failing the parse.
pub open spec fn size_or_zero(s: Seq<char>) -> u64 {
    match parse_u64_spec(s) {
        Some(v) => v,
        None => 0,
    }
}

/// One step of the line machine.
pub open spec fn line_step(st: ParseState, line: Seq<char>) -> ParseState {
    if has_prefix_seq(line, "Path = "@) {
        (ParseState {
            pending: None,
            path: normalized_slashes(strip_prefix_all(line, "Path = "@)),
            size: 0,
            is_dir: false,
            date: Seq::empty(),
            attrs: Seq::empty(),
            emitted: finalize_state(st),
        })
    } else if has_prefix_seq(line, "Size = "@) {
        (ParseState {
            pending: st.pending,
            path: st.path,
            size: size_or_zero(strip_prefix_all(line, "Size = "@)),
            is_dir: st.is_dir,
            date: st.date,
            attrs: st.attrs,
            emitted: st.emitted,
        })
    } else if has_prefix_seq(line, "Folder = "@) {
        (ParseState {
            pending: st.pending,
            path: if strip_prefix_all(line, "Folder = "@) == "+"@ && !ends_slash(st.path) {
                st.path.push('/')
            } else {
                st.path
            },
            size: st.size,
            is_dir: strip_prefix_all(line, "Folder = "@) == "+"@,
            date: st.date,
            attrs: st.attrs,
            emitted: st.emitted,
        })
    } else if has_prefix_seq(line, "Attributes = "@) {
        (ParseState {
            pending: st.pending,
            path: if attrs_mark_dir(strip_prefix_all(line, "Attributes = "@)) && !ends_slash(
                st.path,
            ) {
                st.path.push('/')
            } else {
                st.path
            },
            size: st.size,
            is_dir: st.is_dir || attrs_mark_dir(strip_prefix_all(line, "Attributes = "@)),
            date: st.date,
            attrs: strip_prefix_all(line, "Attributes = "@),
            emitted: st.emitted,
        })
    } else if has_prefix_seq(line, "Modified = "@) {
        (ParseState {
            pending: st.pending,
            path: st.path,
            size: st.size,
            is_dir: st.is_dir,
            date: strip_prefix_all(line, "Modified = "@),
            attrs: st.attrs,
            emitted: st.emitted,
        })
    } else if line.len() == 0 && st.path.len() > 0 {
        (ParseState {
            pending: Some(block_entry(st.path, st.size, st.is_dir, st.date, st.attrs)),
            path: st.path,
            size: st.size,
            is_dir: block_is_dir(st.path, st.is_dir, st.attrs),
            date: st.date,
            attrs: st.attrs,
            emitted: st.emitted,
        })
    } else {
        st
    }
}

/// Runs the line machine over a sequence of lines.
pub open spec fn run_lines(st: ParseState, lines: Seq<Seq<char>>) -> ParseState
    decreases lines.len(),
{
    if lines.len() == 0 {
        st
    } else {
        run_lines(line_step(st, lines[0]), lines.drop_first())
    }
}

/// The primary entries of a listing: one per block, duplicates of a
/// canonical path discarded, before directory synthesis and sorting.
pub open spec fn primary_entries(text: Seq<char>) -> Seq<EntryModel> {
    finalize_state(run_lines(init_state(), trimmed_lines(text)))
}

/// A pending entry as a closed block leaves it: nonempty normalized
/// name, and the directory flag already set wherever the name carries
/// the trailing slash.
pub open spec fn pending_wf(e: EntryModel) -> bool {
    e.name.len() > 0 && no_backslash(e.name) && (ends_slash(e.name) ==> e.is_dir)
}

/// The machine invariant: a slash-normalized working path, a
/// well-formed pending entry, well-formed committed entries.
pub open spec fn good_state(st: ParseState) -> bool {
    no_backslash(st.path) && (match st.pending {
        None => true,
        Some(e) => pending_wf(e),
    }) && entries_wf(st.emitted)
}

proof fn lemma_normalized_no_backslash(s: Seq<char>)
    ensures
        no_backslash(normalized_slashes(s)),
        normalized_slashes(s).len() == s.len(),
        no_backslash(s) ==> normalized_slashes(s) == s,
{
    if no_backslash(s) {
        assert(normalized_slashes(s) =~= s);
    }
}

proof fn lemma_canon_wf(e: EntryModel)
    requires
        pending_wf(e),
    ensures
        wf_entry(canon_entry(e)),
{
    lemma_normalized_no_backslash(e.name);
    let nm = normalized_slashes(e.name);
    assert(nm == e.name);
    if e.is_dir && !ends_slash(nm) {
        assert(canon_entry(e).name == nm.push('/'));
        assert(canon_entry(e).name.last() == '/');
        assert(no_backslash(nm.push('/'))) by {
            assert(forall|i: int|
                0 <= i < nm.len() ==> #[trigger] nm.push('/')[i] == nm[i]);
        }
    }
}

proof fn lemma_emit_wf(acc: Seq<EntryModel>, e: EntryModel)
    requires
        entries_wf(acc),
        pending_wf(e),
    ensures
        entries_wf(emit(acc, e)),
{
    lemma_canon_wf(e);
    if !has_name(acc, canon_entry(e).name) {
        let r = emit(acc, e);
        assert(r == acc.push(canon_entry(e)));
        assert forall|i: int, j: int| 0 <= i < j < r.len() implies r[i].name != r[j].name by {
            if j == r.len() - 1 {
                assert(r[i] == acc[i]);
                if acc[i].name == canon_entry(e).name {
                    assert(has_name(acc, canon_entry(e).name));
                }
            }
        }
        assert(forall|i: int| 0 <= i < r.len() ==> wf_entry(#[trigger] r[i]));
    }
}

proof fn lemma_step_good(st: ParseState, line: Seq<char>)
    requires
        good_state(st),
    ensures
        good_state(line_step(st, line)),
{
    let st1 = line_step(st, line);
    if has_prefix_seq(line, "Path = "@) {
        lemma_normalized_no_backslash(strip_prefix_all(line, "Path = "@));
        match st.pending {
            None => {},
            Some(e) => {
                lemma_emit_wf(st.emitted, e);
            },
        }
    } else if has_prefix_seq(line, "Folder = "@) || has_prefix_seq(line, "Attributes = "@) {
        if st1.path == st.path.push('/') {
            assert(no_backslash(st.path.push('/'))) by {
                assert(forall|i: int|
                    0 <= i < st.path.len() ==> #[trigger] st.path.push('/')[i] == st.path[i]);
            }
        }
    } else if line.len() == 0 && st.path.len() > 0 {
        let e = block_entry(st.path, st.size, st.is_dir, st.date, st.attrs);
        let bp = block_path(st.path, st.is_dir, st.attrs);
        if block_is_dir(st.path, st.is_dir, st.attrs) && !ends_slash(st.path) {
            assert(bp == st.path.push('/'));
            assert(no_backslash(bp)) by {
                assert(forall|i: int|
                    0 <= i < st.path.len() ==> #[trigger] st.path.push('/')[i] == st.path[i]);
            }
        }
        assert(bp.len() > 0);
        assert(pending_wf(e));
    }
}

proof fn lemma_run_good(st: ParseState, lines: Seq<Seq<char>>)
    requires
        good_state(st),
    ensures
        good_state(run_lines(st, lines)),
    decreases lines.len(),
{
    if lines.len() > 0 {
        lemma_step_good(st, lines[0]);
        lemma_run_good(line_step(st, lines[0]), lines.drop_first());
    }
}

/// The primary entries of any listing are well-formed: distinct
/// canonical paths, slash-normalized nonempty names, and a directory
/// flag that agrees with the trailing slash.
pub proof fn lemma_primary_wf(text: Seq<char>)
    ensures
        entries_wf(primary_entries(text)),
{
    assert(good_state(init_state()));
    lemma_run_good(init_state(), trimmed_lines(text));
    let st = run_lines(init_state(), trimmed_lines(text));
    match st.pending {
        None => {},
        Some(e) => {
            lemma_emit_wf(st.emitted, e);
        },
    }
}

/// A line inside a block: nonempty, and not the opening of the next
/// block.
pub open spec fn mid_line_ok(l: Seq<char>) -> bool {
    l.len() > 0 && !has_prefix_seq(l, "Path = "@)
}

/// The lines of a block after its `Path = ` line: field lines, closed
/// by one blank line.
pub open spec fn block_tail_ok(ls: Seq<Seq<char>>) -> bool {
    ls.len() >= 1 && ls.last().len() == 0 && (forall|k: int|
        0 <= k < ls.len() - 1 ==> mid_line_ok(#[trigger] ls[k]))
}

/// A well-formed block: a `Path = ` line naming a nonempty path, field
/// lines, and the closing blank line.
pub open spec fn wf_block(b: Seq<Seq<char>>) -> bool {
    b.len() >= 2 && has_prefix_seq(b[0], "Path = "@) && strip_prefix_all(b[0], "Path = "@).len()
        > 0 && block_tail_ok(b.drop_first())
}

/// The state that processing a block's opening line leaves, with empty
/// history.
pub open spec fn fresh_path_state(b: Seq<Seq<char>>) -> ParseState {
    (ParseState {
        pending: None,
        path: normalized_slashes(strip_prefix_all(b[0], "Path = "@)),
        size: 0,
        is_dir: false,
        date: Seq::empty(),
        attrs: Seq::empty(),
        emitted: Seq::empty(),
    })
}

/// The entry a well-formed block yields, before canonicalization.
pub open spec fn block_entry_of(b: Seq<Seq<char>>) -> EntryModel {
    run_lines(fresh_path_state(b), b.drop_first()).pending->0
}

/// The canonical path a well-formed block settles on.
pub open spec fn canon_block_name(b: Seq<Seq<char>>) -> Seq<char> {
    canon_entry(block_entry_of(b)).name
}

proof fn lemma_run_concat(st: ParseState, a: Seq<Seq<char>>, b: Seq<Seq<char>>)
    ensures
        run_lines(st, a + b) == run_lines(run_lines(st, a), b),
    decreases a.len(),
{
    if a.len() == 0 {
        assert(a + b =~= b);
    } else {
        assert((a + b)[0] == a[0]);
        assert((a + b).drop_first() =~= a.drop_first() + b);
        lemma_run_concat(line_step(st, a[0]), a.drop_first(), b);
    }
}

proof fn lemma_tail_effect(s1: ParseState, s2: ParseState, ls: Seq<Seq<char>>)
    requires
        s1.path == s2.path,
        s1.size == s2.size,
        s1.is_dir == s2.is_dir,
        s1.date == s2.date,
        s1.attrs == s2.attrs,
        s1.path.len() > 0,
        block_tail_ok(ls),
    ensures
        run_lines(s1, ls).emitted == s1.emitted,
        run_lines(s2, ls).emitted == s2.emitted,
        run_lines(s1, ls).pending is Some,
        run_lines(s1, ls).pending == run_lines(s2, ls).pending,
    decreases ls.len(),
{
    reveal_strlit("Path = ");
    reveal_strlit("Size = ");
    reveal_strlit("Folder = ");
    reveal_strlit("Attributes = ");
    reveal_strlit("Modified = ");
    let l = ls[0];
    let r1 = line_step(s1, l);
    let r2 = line_step(s2, l);
    if ls.len() == 1 {
        assert(l.len() == 0);
        assert(!has_prefix_seq(l, "Path = "@));
        assert(!has_prefix_seq(l, "Size = "@));
        assert(!has_prefix_seq(l, "Folder = "@));
        assert(!has_prefix_seq(l, "Attributes = "@));
        assert(!has_prefix_seq(l, "Modified = "@));
        assert(r1.pending == Some(block_entry(s1.path, s1.size, s1.is_dir, s1.date, s1.attrs)));
        assert(run_lines(r1, ls.drop_first()) == r1);
        assert(run_lines(r2, ls.drop_first()) == r2);
    } else {
        assert(mid_line_ok(l));
        assert(!has_prefix_seq(l, "Path = "@));
        assert(l.len() > 0);
        assert(r1.emitted == s1.emitted && r1.pending == s1.pending);
        assert(r2.emitted == s2.emitted && r2.pending == s2.pending);
        assert(r1.path == r2.path && r1.size == r2.size && r1.is_dir == r2.is_dir && r1.date
            == r2.date && r1.attrs == r2.attrs);
        assert(r1.path.len() > 0);
        assert(block_tail_ok(ls.drop_first())) by {
            assert(ls.drop_first().last() == ls.last());
            assert(forall|k: int|
                0 <= k < ls.drop_first().len() - 1 ==> ls.drop_first()[k] == #[trigger] ls[k
                    + 1]);
        }
        lemma_tail_effect(r1, r2, ls.drop_first());
    }
}

proof fn lemma_block_effect(st: ParseState, b: Seq<Seq<char>>)
    requires
        wf_block(b),
    ensures
        run_lines(st, b).emitted == finalize_state(st),
        run_lines(st, b).pending == Some(block_entry_of(b)),
    decreases b.len(),
{
    let stp = line_step(st, b[0]);
    assert(stp.emitted == finalize_state(st));
    assert(stp.pending is None);
    let fresh = fresh_path_state(b);
    assert(stp.path == fresh.path && stp.size == fresh.size && stp.is_dir == fresh.is_dir
        && stp.date == fresh.date && stp.attrs == fresh.attrs);
    assert(fresh.path.len() > 0);
    lemma_tail_effect(stp, fresh, b.drop_first());
    assert(run_lines(st, b) == run_lines(stp, b.drop_first()));
    assert(run_lines(stp, b.drop_first()).emitted == stp.emitted);
    assert(run_lines(fresh, b.drop_first()).pending is Some);
    assert(run_lines(stp, b.drop_first()).pending == Some(block_entry_of(b)));
}

/// The entries committed after a sequence of blocks: one per block,
/// each joining unless its canonical path was already seen.
pub open spec fn commit_blocks(E: Seq<EntryModel>, blocks: Seq<Seq<Seq<char>>>) -> Seq<
    EntryModel,
>
    decreases blocks.len(),
{
    if blocks.len() == 0 {
        E
    } else {
        commit_blocks(emit(E, block_entry_of(blocks[0])), blocks.drop_first())
    }
}

proof fn lemma_chain(st: ParseState, blocks: Seq<Seq<Seq<char>>>)
    requires
        forall|k: int| 0 <= k < blocks.len() ==> wf_block(#[trigger] blocks[k]),
    ensures
        finalize_state(run_lines(st, blocks.flatten())) == commit_blocks(
            finalize_state(st),
            blocks,
        ),
    decreases blocks.len(),
{
    if blocks.len() == 0 {
        assert(blocks.flatten() =~= Seq::<Seq<char>>::empty());
        assert(run_lines(st, blocks.flatten()) == st);
    } else {
        let b0 = blocks[0];
        let rest = blocks.drop_first();
        assert(blocks.flatten() == b0 + rest.flatten());
        lemma_run_concat(st, b0, rest.flatten());
        lemma_block_effect(st, b0);
        let st1 = run_lines(st, b0);
        assert(finalize_state(st1) == emit(finalize_state(st), block_entry_of(b0)));
        assert(forall|k: int| 0 <= k < rest.len() ==> wf_block(#[trigger] rest[k]));
        lemma_chain(st1, rest);
    }
}

proof fn lemma_commit_count(E: Seq<EntryModel>, blocks: Seq<Seq<Seq<char>>>)
    requires
        forall|k: int| 0 <= k < blocks.len() ==> !has_name(E, canon_block_name(#[trigger] blocks[k])),
        forall|k: int, l: int|
            0 <= k < l < blocks.len() ==> canon_block_name(blocks[k]) != canon_block_name(
                blocks[l],
            ),
    ensures
        commit_blocks(E, blocks).len() == E.len() + blocks.len(),
    decreases blocks.len(),
{
    if blocks.len() > 0 {
        let e0 = block_entry_of(blocks[0]);
        assert(!has_name(E, canon_entry(e0).name));
        let e1 = emit(E, e0);
        assert(e1 == E.push(canon_entry(e0)));
        let rest = blocks.drop_first();
        assert forall|k: int| 0 <= k < rest.len() implies !has_name(
            e1,
            canon_block_name(#[trigger] rest[k]),
        ) by {
            assert(rest[k] == blocks[k + 1]);
            if has_name(e1, canon_block_name(rest[k])) {
                let i = choose|i: int|
                    0 <= i < e1.len() && e1[i].name == canon_block_name(rest[k]);
                if i < E.len() {
                    assert(has_name(E, canon_block_name(blocks[k + 1])));
                } else {
                    assert(e1[i] == canon_entry(e0));
                    assert(canon_block_name(blocks[0]) == canon_block_name(blocks[k + 1]));
                }
            }
        }
        assert(forall|k: int, l: int|
            0 <= k < l < rest.len() ==> canon_block_name(#[trigger] rest[k])
                != canon_block_name(#[trigger] rest[l]));
        lemma_commit_count(e1, rest);
    }
}

/// For listing text made of well-formed blocks, the primary entries
/// are exactly the blocks' entries committed in order, each joining
/// unless its canonical path was already seen: a later block for an
/// already-seen path is discarded whole, so the first block's field
/// values win.
pub proof fn lemma_primary_from_blocks(text: Seq<char>, blocks: Seq<Seq<Seq<char>>>)
    requires
        trimmed_lines(text) == blocks.flatten(),
        forall|k: int| 0 <= k < blocks.len() ==> wf_block(#[trigger] blocks[k]),
    ensures
        primary_entries(text) == commit_blocks(Seq::<EntryModel>::empty(), blocks),
{
    lemma_chain(init_state(), blocks);
    assert(finalize_state(init_state()) =~= Seq::<EntryModel>::empty());
}

/// For listing text made of well-formed blocks with pairwise distinct
/// canonical paths, the parser yields exactly one primary entry per
/// block, before directory synthesis.
pub proof fn lemma_primary_entry_count(text: Seq<char>, blocks: Seq<Seq<Seq<char>>>)
    requires
        trimmed_lines(text) == blocks.flatten(),
        forall|k: int| 0 <= k < blocks.len() ==> wf_block(#[trigger] blocks[k]),
        forall|k: int, l: int|
            0 <= k < l < blocks.len() ==> canon_block_name(blocks[k]) != canon_block_name(
                blocks[l],
            ),
    ensures
        primary_entries(text).len() == blocks.len(),
{
    lemma_chain(init_state(), blocks);
    assert(finalize_state(init_state()) =~= Seq::<EntryModel>::empty());
    assert(forall|k: int|
        0 <= k < blocks.len() ==> !has_name(
            Seq::<EntryModel>::empty(),
            canon_block_name(#[trigger] blocks[k]),
        ));
    lemma_commit_count(Seq::<EntryModel>::empty(), blocks);
}

/// The model of an optional entry.
pub open spec fn opt_view(p: Option<FileItem>) -> Option<EntryModel> {
    match p {
        None => None,
        Some(f) => Some(f@),
    }
}

/// The machine state built from the parser's working values.
pub open spec fn st_of(
    pending: Option<EntryModel>,
    path: Seq<char>,
    size: u64,
    d: bool,
    date: Seq<char>,
    attrs: Seq<char>,
    emitted: Seq<EntryModel>,
) -> ParseState {
    (ParseState { pending: pending, path: path, size: size, is_dir: d, date: date, attrs: attrs, emitted: emitted })
}

/// Returns whether some entry of `v` is named `n`.
pub fn contains_name(v: &Vec<FileItem>, n: &str) -> (r: bool)
    ensures
        r == has_name(views_of(v@), n@),
{
    let mut i: usize = 0;
    while i < v.len()
        invariant
            i <= v@.len(),
            forall|j: int| 0 <= j < i ==> views_of(v@)[j].name != n@,
        decreases v@.len() - i,
    {
        if str_eq(v[i].name.as_str(), n) {
            assert(views_of(v@)[i as int].name == n@);
            return true;
        }
        i = i + 1;
    }
    false
}

/// Commits a pending entry: puts its name in canonical form and
/// appends it unless that path was already seen.
fn commit_pending(files: &mut Vec<FileItem>, item: FileItem)
    ensures
        views_of(final(files)@) == emit(views_of(old(files)@), item@),
{
    let mut nm = normalize_slashes(item.name.as_str());
    if item.is_dir && !ends_with_char(nm.as_str(), '/') {
        nm.append("/");
        proof {
            reveal_strlit("/");
            assert(nm@ =~= normalized_slashes(item.name@).push('/'));
        }
    }
    assert(nm@ == canon_entry(item@).name);
    if !contains_name(files, nm.as_str()) {
        let e = FileItem {
            name: nm,
            is_dir: item.is_dir,
            size: item.size,
            modified_date: item.modified_date,
            type_label: item.type_label,
        };
        files.push(e);
        proof {
            assert(views_of(files@) =~= emit(views_of(old(files)@), item@));
        }
    }
}

/// Parses the listing text into its primary entries: one per block,
/// first occurrence of a canonical path winning, in block order.
pub fn parse_primary_entries(output_str: &str) -> (r: Vec<FileItem>)
    ensures
        views_of(r@) == primary_entries(output_str@),
{
    let lines = split_trimmed_lines(output_str);
    let ghost tl = trimmed_lines(output_str@);
    let mut files: Vec<FileItem> = Vec::new();
    let mut pending: Option<FileItem> = None;
    let mut path = String::new();
    let mut size: u64 = 0;
    let mut is_dir = false;
    let mut date = String::new();
    let mut attrs = String::new();
    let mut k: usize = 0;
    proof {
        assert(views_of(files@) =~= Seq::<EntryModel>::empty());
        assert(path@ =~= Seq::<char>::empty());
        assert(date@ =~= Seq::<char>::empty());
        assert(attrs@ =~= Seq::<char>::empty());
        assert(st_of(opt_view(pending), path@, size, is_dir, date@, attrs@, views_of(files@))
            == init_state());
        assert(tl.skip(0) =~= tl);
    }
    while k < lines.len()
        invariant
            k <= lines@.len(),
            lines@.map_values(|l: String| l@) == tl,
            tl == trimmed_lines(output_str@),
            run_lines(init_state(), tl) == run_lines(
                st_of(opt_view(pending), path@, size, is_dir, date@, attrs@, views_of(files@)),
                tl.skip(k as int),
            ),
        decreases lines@.len() - k,
    {
        let ghost st0 = st_of(
            opt_view(pending),
            path@,
            size,
            is_dir,
            date@,
            attrs@,
            views_of(files@),
        );
        let ghost rest = tl.skip(k as int);
        proof {
            assert(rest.len() > 0);
            assert(rest[0] == tl[k as int]);
            assert(tl[k as int] == lines@.map_values(|l: String| l@)[k as int]);
            assert(rest.drop_first() =~= tl.skip(k + 1));
            assert(run_lines(st0, rest) == run_lines(line_step(st0, rest[0]), rest.drop_first()));
        }
        let l = lines[k].as_str();
        if has_prefix(l, "Path = ") {
            let prev = pending;
            pending = None;
            match prev {
                Some(item) => {
                    commit_pending(&mut files, item);
                },
                None => {},
            }
            path = normalize_slashes(strip_prefix_all_str(l, "Path = "));
            size = 0;
            is_dir = false;
            date = String::new();
            attrs = String::new();
            proof {
                assert(date@ =~= Seq::<char>::empty());
                assert(attrs@ =~= Seq::<char>::empty());
                assert(st_of(
                    opt_view(pending),
                    path@,
                    size,
                    is_dir,
                    date@,
                    attrs@,
                    views_of(files@),
                ) == line_step(st0, rest[0]));
            }
        } else if has_prefix(l, "Size = ") {
            size = match parse_u64_str(strip_prefix_all_str(l, "Size = ")) {
                Some(v) => v,
                None => 0,
            };
            proof {
                assert(st_of(
                    opt_view(pending),
                    path@,
                    size,
                    is_dir,
                    date@,
                    attrs@,
                    views_of(files@),
                ) == line_step(st0, rest[0]));
            }
        } else if has_prefix(l, "Folder = ") {
            let flag = str_eq(strip_prefix_all_str(l, "Folder = "), "+");
            is_dir = flag;
            if flag && !ends_with_char(path.as_str(), '/') {
                path.append("/");
                proof {
                    reveal_strlit("/");
                    assert(path@ =~= st0.path.push('/'));
                }
            }
            proof {
                assert(st_of(
                    opt_view(pending),
                    path@,
                    size,
                    is_dir,
                    date@,
                    attrs@,
                    views_of(files@),
                ) == line_step(st0, rest[0]));
            }
        } else if has_prefix(l, "Attributes = ") {
            let a = strip_prefix_all_str(l, "Attributes = ");
            let amark = a.unicode_len() > 0 && a.get_char(0) == 'D';
            assert(amark == attrs_mark_dir(a@));
            if amark {
                is_dir = true;
                if !ends_with_char(path.as_str(), '/') {
                    path.append("/");
                    proof {
                        reveal_strlit("/");
                        assert(path@ =~= st0.path.push('/'));
                    }
                }
            }
            attrs = String::from_str(a);
            proof {
                assert(st_of(
                    opt_view(pending),
                    path@,
                    size,
                    is_dir,
                    date@,
                    attrs@,
                    views_of(files@),
                ) == line_step(st0, rest[0]));
            }
        } else if has_prefix(l, "Modified = ") {
            date = String::from_str(strip_prefix_all_str(l, "Modified = "));
            proof {
                assert(st_of(
                    opt_view(pending),
                    path@,
                    size,
                    is_dir,
                    date@,
                    attrs@,
                    views_of(files@),
                ) == line_step(st0, rest[0]));
            }
        } else if l.unicode_len() == 0 && path.unicode_len() > 0 {
            let ext_none = extension_of(path.as_str()).is_none();
            let sigs = ends_with_char(path.as_str(), '/') || (attrs.as_str().unicode_len() > 0
                && attrs.as_str().get_char(0) == 'D');
            let bid = is_dir || (ext_none && sigs);
            assert(bid == block_is_dir(path@, st0.is_dir, attrs@));
            let label = if bid {
                dir_label_str()
            } else {
                file_type_label(path.as_str())
            };
            let mut fp = path.clone();
            if bid && !ends_with_char(fp.as_str(), '/') {
                fp.append("/");
                proof {
                    reveal_strlit("/");
                    assert(fp@ =~= st0.path.push('/'));
                }
            }
            assert(fp@ == block_path(st0.path, st0.is_dir, st0.attrs));
            let df = ends_with_char(fp.as_str(), '/') || (attrs.as_str().unicode_len() > 0
                && attrs.as_str().get_char(0) == 'D');
            pending = Some(
                FileItem {
                    name: fp,
                    is_dir: df,
                    size: size,
                    modified_date: date.clone(),
                    type_label: label,
                },
            );
            is_dir = bid;
            proof {
                assert(opt_view(pending)->0 == block_entry(
                    st0.path,
                    st0.size,
                    st0.is_dir,
                    st0.date,
                    st0.attrs,
                ));
                assert(st_of(
                    opt_view(pending),
                    path@,
                    size,
                    is_dir,
                    date@,
                    attrs@,
                    views_of(files@),
                ) == line_step(st0, rest[0]));
            }
        } else {
            proof {
                assert(st_of(
                    opt_view(pending),
                    path@,
                    size,
                    is_dir,
                    date@,
                    attrs@,
                    views_of(files@),
                ) == line_step(st0, rest[0]));
            }
        }
        k = k + 1;
    }
    proof {
        assert(tl.skip(k as int) =~= Seq::<Seq<char>>::empty());
    }
    let last = pending;
    match last {
        Some(item) => {
            commit_pending(&mut files, item);
        },
        None => {},
    }
    files
}

/// The relative path, under the application's resource directory,
/// where the bundled archiving tool is staged on this target.
pub fn get_7z_resource_path() -> (r: Result<String, String>)
    ensures
        r is Ok,
        r->Ok_0@ == "binaries/linux/7z"@,
{
    Ok(String::from_str("binaries/linux/7z"))
}

/// Parses the listing text into the caller-facing entry tree: the
/// primary entries of the blocks, every missing ancestor directory
/// synthesized, ordered with directories before files and paths
/// lexicographic within each group.
pub fn parse_7z_list_output(output_str: &str) -> (r: Vec<FileItem>)
    ensures
        views_of(r@).to_multiset() == crate::tree::synthesized(
            primary_entries(output_str@),
        ).to_multiset(),
        crate::entry::entries_sorted(views_of(r@)),
        entries_wf(views_of(r@)),
        crate::tree::ancestor_closed(views_of(r@)),
{
    let mut files = parse_primary_entries(output_str);
    proof {
        lemma_primary_wf(output_str@);
    }
    crate::tree::synthesize_dirs(&mut files);
    proof {
        crate::tree::lemma_synthesized_props(primary_entries(output_str@));
    }
    crate::sort::sort_entries(&mut files);
    proof {
        crate::sort::lemma_sort_keeps_shape(
            crate::tree::synthesized(primary_entries(output_str@)),
            views_of(files@),
        );
    }
    files
}

} // verus!
