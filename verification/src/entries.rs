//! Entries: module paths with their requests, in the order of the paths.

use vstd::prelude::*;

use crate::grouping::ModuleRequestView;
use crate::module::{lemma_path_order, package_path, path_precedes};

verus! {

/// One entry of a set of module requests: a module path and its request.
pub type Entry = (Seq<Seq<char>>, ModuleRequestView);

/// The paths of the entries grow strictly from each entry to the next.
pub open spec fn strictly_increasing(entries: Seq<Entry>) -> bool {
    forall|i: int, j: int|
        0 <= i < j < entries.len() ==> path_precedes(
            (#[trigger] entries[i]).0,
            (#[trigger] entries[j]).0,
        )
}

/// The files of the entry are files of its module: there is at least one,
/// the package of each has the path of the entry, and the package name of
/// the entry is that of the first.
pub open spec fn holds_own_files(entry: Entry) -> bool {
    &&& entry.1.files.len() > 0
    &&& entry.1.package == entry.1.files[0].package
    &&& forall|k: int|
        0 <= k < entry.1.files.len() ==> package_path((#[trigger] entry.1.files[k]).package)
            == entry.0
}

/// What holds of the entries of every set: their paths grow strictly, so
/// that no path occurs twice, and each entry holds files of its own module.
pub open spec fn well_formed(entries: Seq<Entry>) -> bool {
    &&& strictly_increasing(entries)
    &&& forall|i: int| 0 <= i < entries.len() ==> holds_own_files(#[trigger] entries[i])
}

/// Some entry has the given path.
pub open spec fn has_path(entries: Seq<Entry>, path: Seq<Seq<char>>) -> bool {
    exists|i: int| 0 <= i < entries.len() && (#[trigger] entries[i]).0 == path
}

/// The entries as a mapping from module path to request.
pub open spec fn as_map(entries: Seq<Entry>) -> Map<Seq<Seq<char>>, ModuleRequestView> {
    Map::new(
        |path: Seq<Seq<char>>| has_path(entries, path),
        |path: Seq<Seq<char>>|
            entries[choose|i: int| 0 <= i < entries.len() && (#[trigger] entries[i]).0 == path].1,
    )
}

/// The number of files in all the entries together.
pub open spec fn file_count(entries: Seq<Entry>) -> nat
    decreases entries.len(),
{
    if entries.len() == 0 {
        0
    } else {
        file_count(entries.drop_last()) + entries.last().1.files.len()
    }
}

/// In strictly increasing entries each path occurs once, so the mapping
/// holds every entry as it stands.
pub proof fn lemma_as_map_entry(entries: Seq<Entry>, at: int)
    requires
        strictly_increasing(entries),
        0 <= at < entries.len(),
    ensures
        as_map(entries).dom().contains(entries[at].0),
        as_map(entries)[entries[at].0] == entries[at].1,
{
    let path = entries[at].0;
    let other = choose|i: int| 0 <= i < entries.len() && (#[trigger] entries[i]).0 == path;
    lemma_path_order(path, path, path);
    if other < at {
        assert(path_precedes(entries[other].0, entries[at].0));
    } else if at < other {
        assert(path_precedes(entries[at].0, entries[other].0));
    }
}

/// Without their last entry, strictly increasing entries make up the same
/// mapping without the path of that entry.
proof fn lemma_as_map_drop_last(entries: Seq<Entry>)
    requires
        strictly_increasing(entries),
        entries.len() > 0,
    ensures
        strictly_increasing(entries.drop_last()),
        as_map(entries.drop_last()) == as_map(entries).remove(entries.last().0),
{
    let shorter = entries.drop_last();
    let top = entries.len() - 1;
    let path = entries.last().0;
    lemma_path_order(path, path, path);
    assert forall|i: int, j: int| 0 <= i < j < shorter.len() implies path_precedes(
        (#[trigger] shorter[i]).0,
        (#[trigger] shorter[j]).0,
    ) by {
        assert(path_precedes(entries[i].0, entries[j].0));
    }
    let held = as_map(shorter);
    let wanted = as_map(entries).remove(path);
    assert forall|other: Seq<Seq<char>>| held.dom().contains(other) <==> wanted.dom().contains(
        other,
    ) by {
        if has_path(shorter, other) {
            let i = choose|i: int| 0 <= i < shorter.len() && (#[trigger] shorter[i]).0 == other;
            assert(entries[i].0 == other);
            assert(path_precedes(entries[i].0, entries[top].0));
        }
        if has_path(entries, other) && other != path {
            let i = choose|i: int| 0 <= i < entries.len() && (#[trigger] entries[i]).0 == other;
            assert(shorter[i].0 == other);
        }
    }
    assert forall|other: Seq<Seq<char>>| held.dom().contains(other) implies held[other]
        == wanted[other] by {
        let i = choose|i: int| 0 <= i < shorter.len() && (#[trigger] shorter[i]).0 == other;
        lemma_as_map_entry(shorter, i);
        assert(entries[i] == shorter[i]);
        lemma_as_map_entry(entries, i);
    }
    assert(held =~= wanted);
}

/// Entries in strictly increasing order are fixed by the mapping that they
/// make up: a set holds one request for each of its paths, in one order.
pub proof fn lemma_entries_unique(first: Seq<Entry>, second: Seq<Entry>)
    requires
        strictly_increasing(first),
        strictly_increasing(second),
        as_map(first) == as_map(second),
    ensures
        first == second,
    decreases first.len(),
{
    if first.len() == 0 {
        if second.len() > 0 {
            lemma_as_map_entry(second, 0);
            assert(has_path(first, second[0].0));
        }
        assert(first =~= second);
    } else {
        let top = first.len() - 1;
        lemma_as_map_entry(first, top);
        assert(has_path(second, first[top].0));
        let other_top = second.len() - 1;
        lemma_as_map_entry(second, other_top);
        assert(has_path(first, second[other_top].0));
        let i = choose|i: int|
            0 <= i < first.len() && (#[trigger] first[i]).0 == second[other_top].0;
        let j = choose|j: int| 0 <= j < second.len() && (#[trigger] second[j]).0 == first[top].0;
        lemma_path_order(first[top].0, second[other_top].0, first[top].0);
        if i < top {
            assert(path_precedes(first[i].0, first[top].0));
        }
        if j < other_top {
            assert(path_precedes(second[j].0, second[other_top].0));
        }
        assert(first[top].0 == second[other_top].0);
        assert(first[top] == second[other_top]);
        let shorter = first.drop_last();
        let other_shorter = second.drop_last();
        lemma_as_map_drop_last(first);
        lemma_as_map_drop_last(second);
        lemma_entries_unique(shorter, other_shorter);
        assert(first =~= shorter.push(first[top]));
        assert(second =~= other_shorter.push(second[other_top]));
    }
}

/// Putting an entry in adds its files to the count.
pub proof fn lemma_file_count_insert(entries: Seq<Entry>, at: int, entry: Entry)
    requires
        0 <= at <= entries.len(),
    ensures
        file_count(entries.insert(at, entry)) == file_count(entries) + entry.1.files.len(),
    decreases entries.len(),
{
    let grown = entries.insert(at, entry);
    if at == entries.len() {
        assert(grown.drop_last() =~= entries);
    } else {
        assert(grown.drop_last() =~= entries.drop_last().insert(at, entry));
        assert(grown.last() == entries.last());
        lemma_file_count_insert(entries.drop_last(), at, entry);
    }
}

/// Replacing an entry changes the count by the difference of the files.
pub proof fn lemma_file_count_update(entries: Seq<Entry>, at: int, entry: Entry)
    requires
        0 <= at < entries.len(),
    ensures
        file_count(entries.update(at, entry)) + entries[at].1.files.len() == file_count(entries)
            + entry.1.files.len(),
    decreases entries.len(),
{
    let changed = entries.update(at, entry);
    if at == entries.len() - 1 {
        assert(changed.drop_last() =~= entries.drop_last());
    } else {
        assert(changed.drop_last() =~= entries.drop_last().update(at, entry));
        assert(changed.last() == entries.last());
        lemma_file_count_update(entries.drop_last(), at, entry);
    }
}

} // verus!
