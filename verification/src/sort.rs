//! The listing order: directories before files, lexicographic paths
//! within each group, established by insertion sort.

use vstd::prelude::*;
use crate::entry::{
    EntryModel, FileItem, views_of, entry_le, entries_sorted, names_unique, entries_wf, wf_entry,
    has_name,
};
use crate::text::{lex_le, lex_le_str};
use crate::tree::{chain_covered, ancestor_closed};

verus! {

proof fn lemma_index_of_contains(s: Seq<EntryModel>, x: EntryModel)
    requires
        s.to_multiset().count(x) > 0,
    ensures
        exists|i: int| 0 <= i < s.len() && s[i] == x,
{
    vstd::seq_lib::to_multiset_contains(s, x);
    assert(s.contains(x));
}

proof fn lemma_two_indexes_of_count2(s: Seq<EntryModel>, x: EntryModel)
    requires
        s.to_multiset().count(x) >= 2,
    ensures
        exists|i: int, j: int| 0 <= i < j < s.len() && s[i] == x && s[j] == x,
{
    lemma_index_of_contains(s, x);
    let i = choose|i: int| 0 <= i < s.len() && s[i] == x;
    vstd::seq_lib::to_multiset_remove(s, i);
    broadcast use vstd::multiset::group_multiset_axioms;

    assert(s.remove(i).to_multiset().count(x) >= 1);
    lemma_index_of_contains(s.remove(i), x);
    let k = choose|k: int| 0 <= k < s.remove(i).len() && s.remove(i)[k] == x;
    if k < i {
        assert(s[k] == x && s[i] == x && k < i);
    } else {
        assert(s[k + 1] == x && s[i] == x && i < k + 1);
    }
}

proof fn lemma_count2_of_two_indexes(s: Seq<EntryModel>, i: int, j: int)
    requires
        0 <= i < j < s.len(),
        s[i] == s[j],
    ensures
        s.to_multiset().count(s[i]) >= 2,
{
    vstd::seq_lib::to_multiset_remove(s, i);
    broadcast use vstd::multiset::group_multiset_axioms;

    assert(s.remove(i)[j - 1] == s[j]);
    vstd::seq_lib::to_multiset_contains(s.remove(i), s[i]);
    assert(s.remove(i).contains(s[i]));
    assert(s.remove(i).to_multiset().count(s[i]) > 0);
}

/// Reordering a sequence of entries keeps its names pairwise distinct.
proof fn lemma_perm_names_unique(a: Seq<EntryModel>, b: Seq<EntryModel>)
    requires
        a.to_multiset() == b.to_multiset(),
        names_unique(a),
    ensures
        names_unique(b),
{
    assert forall|i: int, j: int| 0 <= i < j < b.len() implies b[i].name != b[j].name by {
        if b[i].name == b[j].name {
            if b[i] == b[j] {
                lemma_count2_of_two_indexes(b, i, j);
                lemma_two_indexes_of_count2(a, b[i]);
            } else {
                vstd::seq_lib::to_multiset_contains(b, b[i]);
                vstd::seq_lib::to_multiset_contains(b, b[j]);
                vstd::seq_lib::to_multiset_contains(a, b[i]);
                vstd::seq_lib::to_multiset_contains(a, b[j]);
                let p = choose|p: int| 0 <= p < a.len() && a[p] == b[i];
                let q = choose|q: int| 0 <= q < a.len() && a[q] == b[j];
                assert(p != q);
            }
        }
    }
}

/// Reordering a sequence of entries keeps well-formedness and the
/// presence of every ancestor directory.
proof fn lemma_perm_wf_closed(a: Seq<EntryModel>, b: Seq<EntryModel>)
    requires
        a.to_multiset() == b.to_multiset(),
        entries_wf(a),
        ancestor_closed(a),
    ensures
        entries_wf(b),
        ancestor_closed(b),
{
    lemma_perm_names_unique(a, b);
    assert forall|i: int| 0 <= i < b.len() implies wf_entry(#[trigger] b[i]) by {
        vstd::seq_lib::to_multiset_contains(b, b[i]);
        vstd::seq_lib::to_multiset_contains(a, b[i]);
        let p = choose|p: int| 0 <= p < a.len() && a[p] == b[i];
        assert(wf_entry(a[p]));
    }
    assert forall|x: Seq<char>| has_name(a, x) implies has_name(b, x) by {
        let p = choose|p: int| 0 <= p < a.len() && a[p].name == x;
        vstd::seq_lib::to_multiset_contains(a, a[p]);
        vstd::seq_lib::to_multiset_contains(b, a[p]);
        let q = choose|q: int| 0 <= q < b.len() && b[q] == a[p];
        assert(b[q].name == x);
    }
    assert forall|i: int| 0 <= i < b.len() implies #[trigger] chain_covered(b, b[i].name) by {
        vstd::seq_lib::to_multiset_contains(b, b[i]);
        vstd::seq_lib::to_multiset_contains(a, b[i]);
        let p = choose|p: int| 0 <= p < a.len() && a[p] == b[i];
        assert(chain_covered(a, a[p].name));
    }
}

/// Sorting entries keeps their names distinct, each entry well-formed,
/// and every ancestor directory present.
pub proof fn lemma_sort_keeps_shape(a: Seq<EntryModel>, b: Seq<EntryModel>)
    requires
        a.to_multiset() == b.to_multiset(),
        entries_wf(a),
        ancestor_closed(a),
    ensures
        entries_wf(b),
        ancestor_closed(b),
{
    lemma_perm_wf_closed(a, b);
}

proof fn lemma_lex_le_total(a: Seq<char>, b: Seq<char>)
    ensures
        lex_le(a, b) || lex_le(b, a),
    decreases a.len(),
{
    if a.len() > 0 && b.len() > 0 && (a[0] as u32) == (b[0] as u32) {
        lemma_lex_le_total(a.drop_first(), b.drop_first());
    }
}

proof fn lemma_lex_le_trans(a: Seq<char>, b: Seq<char>, c: Seq<char>)
    requires
        lex_le(a, b),
        lex_le(b, c),
    ensures
        lex_le(a, c),
    decreases a.len(),
{
    if a.len() > 0 && b.len() > 0 && c.len() > 0 && (a[0] as u32) == (b[0] as u32) && (b[0]
        as u32) == (c[0] as u32) {
        lemma_lex_le_trans(a.drop_first(), b.drop_first(), c.drop_first());
    }
}

/// The listing order is total.
pub proof fn lemma_entry_le_total(a: EntryModel, b: EntryModel)
    ensures
        entry_le(a, b) || entry_le(b, a),
{
    lemma_lex_le_total(a.name, b.name);
}

/// The listing order is transitive.
pub proof fn lemma_entry_le_trans(a: EntryModel, b: EntryModel, c: EntryModel)
    requires
        entry_le(a, b),
        entry_le(b, c),
    ensures
        entry_le(a, c),
{
    if a.is_dir == b.is_dir && b.is_dir == c.is_dir {
        lemma_lex_le_trans(a.name, b.name, c.name);
    }
}

/// Decides `entry_le`.
fn entry_le_exec(a: &FileItem, b: &FileItem) -> (r: bool)
    ensures
        r == entry_le(a@, b@),
{
    if a.is_dir && !b.is_dir {
        true
    } else if a.is_dir == b.is_dir {
        lex_le_str(a.name.as_str(), b.name.as_str())
    } else {
        false
    }
}

/// Sorts the entries: directories before files, then lexicographic
/// path order within each group. The entries themselves are unchanged.
pub fn sort_entries(v: &mut Vec<FileItem>)
    ensures
        views_of(final(v)@).to_multiset() == views_of(old(v)@).to_multiset(),
        entries_sorted(views_of(final(v)@)),
{
    let ghost m0 = views_of(old(v)@).to_multiset();
    if v.len() < 2 {
        return;
    }
    let mut i: usize = 1;
    while i < v.len()
        invariant
            1 <= i <= v@.len(),
            views_of(v@).to_multiset() == m0,
            m0 == views_of(old(v)@).to_multiset(),
            entries_sorted(views_of(v@).take(i as int)),
        decreases v@.len() - i,
    {
        let ghost s = views_of(v@);
        let mut j: usize = 0;
        while j < i && entry_le_exec(&v[j], &v[i])
            invariant
                j <= i < v@.len(),
                s == views_of(v@),
                forall|k: int| 0 <= k < j ==> entry_le(s[k], s[i as int]),
            decreases i - j,
        {
            j = j + 1;
        }
        if j < i {
            let ghost x = s[i as int];
            proof {
                // where the scan stopped, the element is larger
                lemma_entry_le_total(s[j as int], x);
                assert(entry_le(x, s[j as int]));
            }
            let moved = v.remove(i);
            v.insert(j, moved);
            proof {
                broadcast use vstd::multiset::group_multiset_axioms;

                let s1 = views_of(v@);
                assert(s1 =~= s.remove(i as int).insert(j as int, x));
                vstd::seq_lib::to_multiset_insert(s.remove(i as int), j as int, x);
                vstd::seq_lib::to_multiset_remove(s, i as int);
                vstd::seq_lib::to_multiset_contains(s, x);
                assert(s.contains(x));
                assert(s1.to_multiset() =~= s.to_multiset());
                assert forall|p: int, q: int| 0 <= p < q < i implies entry_le(s[p], s[q]) by {
                    assert(s.take(i as int)[p] == s[p]);
                    assert(s.take(i as int)[q] == s[q]);
                }
                assert forall|p: int, q: int|
                    0 <= p < q < i + 1 implies entry_le(s1[p], s1[q]) by {
                    if q < j {
                        assert(s1[p] == s[p] && s1[q] == s[q]);
                    } else if q == j {
                        assert(s1[p] == s[p]);
                        assert(s1[q] == x);
                        assert(entry_le(s[p], x));
                    } else if p < j {
                        assert(s1[p] == s[p] && s1[q] == s[q - 1]);
                        if q - 1 == j {
                            // s[j] itself
                            assert(entry_le(s[p], s[j as int]));
                        } else {
                            assert(entry_le(s[p], s[q - 1]));
                        }
                    } else if p == j {
                        assert(s1[p] == x && s1[q] == s[q - 1]);
                        assert(entry_le(x, s[j as int]));
                        if q - 1 > j {
                            assert(entry_le(s[j as int], s[q - 1]));
                            lemma_entry_le_trans(x, s[j as int], s[q - 1]);
                        }
                    } else {
                        assert(s1[p] == s[p - 1] && s1[q] == s[q - 1]);
                        assert(entry_le(s[p - 1], s[q - 1]));
                    }
                }
                assert(entries_sorted(s1.take(i + 1)));
            }
        } else {
            proof {
                let s1 = views_of(v@);
                assert forall|p: int, q: int| 0 <= p < q < i implies entry_le(s[p], s[q]) by {
                    assert(s.take(i as int)[p] == s[p]);
                    assert(s.take(i as int)[q] == s[q]);
                }
                assert forall|p: int, q: int|
                    0 <= p < q < i + 1 implies entry_le(s1[p], s1[q]) by {
                    if q == i {
                        assert(entry_le(s[p], s[i as int]));
                    }
                }
                assert(entries_sorted(s1.take(i + 1)));
            }
        }
        i = i + 1;
    }
    proof {
        let s1 = views_of(v@);
        assert(s1.take(i as int) =~= s1);
    }
}

} // verus!
