//! The grouping as one pass over the files, and how it agrees with the
//! grouping as a mapping.

use vstd::prelude::*;

use crate::entries::{
    as_map, file_count, has_path, holds_own_files, lemma_as_map_entry, lemma_entries_unique,
    lemma_file_count_insert, lemma_file_count_update, strictly_increasing, well_formed, Entry,
};
use crate::file::FileDescriptionView;
use crate::grouping::{
    files_of, fresh, grouping, lemma_files_of_members, lemma_files_of_push,
    lemma_request_for_push, request_for, with_file,
};
use crate::module::{lemma_path_order, package_path, path_precedes};

verus! {

/// The entries are those of the grouping of the files: they are in strictly
/// increasing order, each is the request of its path, and no path that some
/// file has is missing.
pub open spec fn represents(
    entries: Seq<Entry>,
    generate: Set<Seq<char>>,
    files: Seq<FileDescriptionView>,
    default: Seq<char>,
) -> bool {
    &&& strictly_increasing(entries)
    &&& forall|i: int|
        0 <= i < entries.len() ==> {
            &&& files_of(files, (#[trigger] entries[i]).0).len() > 0
            &&& entries[i].1 == request_for(generate, files, default, entries[i].0)
        }
    &&& forall|path: Seq<Seq<char>>|
        (#[trigger] files_of(files, path)).len() > 0 ==> has_path(entries, path)
}

/// Entries that are those of the grouping of some files make up the map of
/// that grouping.
pub proof fn lemma_represents_grouping(
    entries: Seq<Entry>,
    generate: Set<Seq<char>>,
    files: Seq<FileDescriptionView>,
    default: Seq<char>,
)
    requires
        represents(entries, generate, files, default),
    ensures
        as_map(entries) == grouping(generate, files, default),
{
    let held = as_map(entries);
    let wanted = grouping(generate, files, default);
    assert forall|path: Seq<Seq<char>>| held.dom().contains(path) <==> wanted.dom().contains(
        path,
    ) by {
        if has_path(entries, path) {
            let i = choose|i: int| 0 <= i < entries.len() && (#[trigger] entries[i]).0 == path;
            assert(files_of(files, entries[i].0).len() > 0);
        }
    }
    assert forall|path: Seq<Seq<char>>| held.dom().contains(path) implies held[path]
        == wanted[path] by {
        let i = choose|i: int| 0 <= i < entries.len() && (#[trigger] entries[i]).0 == path;
        lemma_as_map_entry(entries, i);
    }
    assert(held =~= wanted);
}

/// Entries that are those of the grouping of some files are well formed.
pub proof fn lemma_represents_well_formed(
    entries: Seq<Entry>,
    generate: Set<Seq<char>>,
    files: Seq<FileDescriptionView>,
    default: Seq<char>,
)
    requires
        represents(entries, generate, files, default),
    ensures
        well_formed(entries),
{
    assert forall|i: int| 0 <= i < entries.len() implies holds_own_files(
        #[trigger] entries[i],
    ) by {
        let entry = entries[i];
        assert(entry.1.files == files_of(files, entry.0));
        assert forall|k: int| 0 <= k < entry.1.files.len() implies package_path(
            (#[trigger] entry.1.files[k]).package,
        ) == entry.0 by {
            let origin = lemma_files_of_members(files, entry.0, k);
        }
    }
}

/// The step of the grouping: where the entries are those of some files, the
/// request of the module of one more file is put in at its place in the
/// order, unless it is there, and takes the file; the entries are then those
/// of the files with that file at their end.
pub proof fn lemma_grouping_step(
    before: Seq<Entry>,
    after: Seq<Entry>,
    generate: Set<Seq<char>>,
    files: Seq<FileDescriptionView>,
    file: FileDescriptionView,
    default: Seq<char>,
    at: int,
    found: bool,
)
    requires
        represents(before, generate, files, default),
        0 <= at <= before.len(),
        found ==> at < before.len() && before[at].0 == package_path(file.package),
        !found ==> forall|i: int|
            0 <= i < at ==> path_precedes(
                (#[trigger] before[i]).0,
                package_path(file.package),
            ),
        !found ==> forall|i: int|
            at <= i < before.len() ==> path_precedes(
                package_path(file.package),
                (#[trigger] before[i]).0,
            ),
        after == ({
            let path = package_path(file.package);
            let placed = if found {
                before
            } else {
                before.insert(at, (path, fresh(file.package)))
            };
            placed.update(at, (path, with_file(placed[at].1, generate, file, default)))
        }),
    ensures
        represents(after, generate, files.push(file), default),
        file_count(after) == file_count(before) + 1,
{
    let path = package_path(file.package);
    let placed = if found {
        before
    } else {
        before.insert(at, (path, fresh(file.package)))
    };
    let grown = files.push(file);
    lemma_path_order(path, path, path);
    // The place of each entry of `after` in `before`.
    let origin = |i: int|
        if found || i < at {
            i
        } else {
            i - 1
        };
    assert forall|i: int| 0 <= i < after.len() && i != at implies after[i] == before[origin(i)]
        && 0 <= origin(i) < before.len() by {}
    assert(after[at].0 == path);
    if !found {
        lemma_file_count_insert(before, at, (path, fresh(file.package)));
        if files_of(files, path).len() > 0 {
            let i = choose|i: int| 0 <= i < before.len() && (#[trigger] before[i]).0 == path;
            assert(false);
        }
    }
    lemma_file_count_update(placed, at, (path, with_file(placed[at].1, generate, file, default)));
    assert forall|i: int, j: int| 0 <= i < j < after.len() implies path_precedes(
        (#[trigger] after[i]).0,
        (#[trigger] after[j]).0,
    ) by {
        if i != at && j != at {
            assert(path_precedes(before[origin(i)].0, before[origin(j)].0));
        } else if i == at {
            if found {
                assert(path_precedes(before[at].0, before[origin(j)].0));
            } else {
                assert(path_precedes(path, before[origin(j)].0));
            }
        } else {
            if found {
                assert(path_precedes(before[origin(i)].0, before[at].0));
            } else {
                assert(path_precedes(before[origin(i)].0, path));
            }
        }
    }
    assert forall|i: int| 0 <= i < after.len() implies files_of(
        grown,
        (#[trigger] after[i]).0,
    ).len() > 0 && after[i].1 == request_for(generate, grown, default, after[i].0) by {
        lemma_files_of_push(files, file, after[i].0);
        lemma_request_for_push(generate, files, file, default, after[i].0);
        if i != at {
            let old = origin(i);
            assert(after[i] == before[old]);
            if i < at {
                assert(path_precedes(after[i].0, after[at].0));
            } else {
                assert(path_precedes(after[at].0, after[i].0));
            }
            lemma_path_order(after[i].0, path, after[i].0);
            assert(after[i].0 != path);
            assert(files_of(files, before[old].0).len() > 0);
        } else if found {
            assert(files_of(files, before[at].0).len() > 0);
        }
    }
    assert forall|other: Seq<Seq<char>>| (#[trigger] files_of(grown, other)).len()
        > 0 implies has_path(after, other) by {
        lemma_files_of_push(files, file, other);
        if other == path {
            assert(after[at].0 == other);
        } else {
            assert(files_of(files, other).len() > 0);
            let i = choose|i: int| 0 <= i < before.len() && (#[trigger] before[i]).0 == other;
            let moved = if found || i < at {
                i
            } else {
                i + 1
            };
            assert(after[moved].0 == other);
        }
    }
}

/// The place of a path among entries in increasing order: the number of
/// entries at the start whose path comes before it.
pub open spec fn place(entries: Seq<Entry>, path: Seq<Seq<char>>) -> int
    decreases entries.len(),
{
    if entries.len() == 0 || !path_precedes(entries.first().0, path) {
        0
    } else {
        1 + place(entries.drop_first(), path)
    }
}

/// The entries after one more file: the request of the module of the file
/// is put in at the place of its path, unless it is there, and takes the
/// file.
pub open spec fn with_entry_for(
    entries: Seq<Entry>,
    generate: Set<Seq<char>>,
    file: FileDescriptionView,
    default: Seq<char>,
) -> Seq<Entry> {
    let path = package_path(file.package);
    let at = place(entries, path);
    let placed = if at < entries.len() && entries[at].0 == path {
        entries
    } else {
        entries.insert(at, (path, fresh(file.package)))
    };
    placed.update(at, (path, with_file(placed[at].1, generate, file, default)))
}

/// The entries of the grouping of a list of files, made in one pass over
/// the files in their order.
pub open spec fn grouped(
    generate: Set<Seq<char>>,
    files: Seq<FileDescriptionView>,
    default: Seq<char>,
) -> Seq<Entry>
    decreases files.len(),
{
    if files.len() == 0 {
        Seq::empty()
    } else {
        with_entry_for(
            grouped(generate, files.drop_last(), default),
            generate,
            files.last(),
            default,
        )
    }
}

/// In strictly increasing entries, the entries before the place of a path
/// come before the path, and no other entry does.
pub proof fn lemma_place(entries: Seq<Entry>, path: Seq<Seq<char>>)
    requires
        strictly_increasing(entries),
    ensures
        0 <= place(entries, path) <= entries.len(),
        forall|i: int|
            0 <= i < place(entries, path) ==> path_precedes((#[trigger] entries[i]).0, path),
        forall|i: int|
            place(entries, path) <= i < entries.len() ==> !path_precedes(
                (#[trigger] entries[i]).0,
                path,
            ),
    decreases entries.len(),
{
    if entries.len() > 0 {
        let rest = entries.drop_first();
        assert forall|i: int, j: int| 0 <= i < j < rest.len() implies path_precedes(
            (#[trigger] rest[i]).0,
            (#[trigger] rest[j]).0,
        ) by {
            assert(path_precedes(entries[i + 1].0, entries[j + 1].0));
        }
        lemma_place(rest, path);
        if path_precedes(entries.first().0, path) {
            assert forall|i: int| 0 <= i < place(entries, path) implies path_precedes(
                (#[trigger] entries[i]).0,
                path,
            ) by {
                if i > 0 {
                    assert(entries[i] == rest[i - 1]);
                }
            }
            assert forall|i: int| place(entries, path) <= i < entries.len() implies !path_precedes(
                (#[trigger] entries[i]).0,
                path,
            ) by {
                assert(entries[i] == rest[i - 1]);
            }
        } else {
            assert forall|i: int| 0 <= i < entries.len() implies !path_precedes(
                (#[trigger] entries[i]).0,
                path,
            ) by {
                if i > 0 {
                    assert(path_precedes(entries[0].0, entries[i].0));
                    lemma_path_order(entries[0].0, entries[i].0, path);
                }
            }
        }
    }
}

/// The entries made in one pass are those of the grouping of the files, and
/// they hold as many files as there are.
pub proof fn lemma_grouped(
    generate: Set<Seq<char>>,
    files: Seq<FileDescriptionView>,
    default: Seq<char>,
)
    ensures
        represents(grouped(generate, files, default), generate, files, default),
        file_count(grouped(generate, files, default)) == files.len(),
    decreases files.len(),
{
    if files.len() == 0 {
        assert forall|path: Seq<Seq<char>>| (#[trigger] files_of(files, path)).len() == 0 by {
            reveal(Seq::filter);
        }
    } else {
        let first = files.drop_last();
        let file = files.last();
        let before = grouped(generate, first, default);
        let path = package_path(file.package);
        let at = place(before, path);
        lemma_grouped(generate, first, default);
        lemma_place(before, path);
        let found = at < before.len() && before[at].0 == path;
        if !found {
            assert forall|i: int| at <= i < before.len() implies path_precedes(
                path,
                (#[trigger] before[i]).0,
            ) by {
                lemma_path_order(before[i].0, path, before[i].0);
                if i > at {
                    assert(path_precedes(before[at].0, before[i].0));
                }
            }
        }
        lemma_grouping_step(
            before,
            grouped(generate, files, default),
            generate,
            first,
            file,
            default,
            at,
            found,
        );
        assert(files =~= first.push(file));
    }
}

/// The pass over the files makes the grouping: its entries are well formed,
/// and they make up the mapping of the grouping.
pub proof fn lemma_grouped_is_grouping(
    generate: Set<Seq<char>>,
    files: Seq<FileDescriptionView>,
    default: Seq<char>,
)
    ensures
        well_formed(grouped(generate, files, default)),
        as_map(grouped(generate, files, default)) == grouping(generate, files, default),
{
    lemma_grouped(generate, files, default);
    lemma_represents_grouping(grouped(generate, files, default), generate, files, default);
    lemma_represents_well_formed(grouped(generate, files, default), generate, files, default);
}

/// Partition: entries in strictly increasing order that make up the grouping
/// of a list of files are the entries that the pass over the files makes,
/// and they hold as many files as the list: no file is dropped, and none is
/// held twice.
pub proof fn lemma_partition_complete(
    entries: Seq<Entry>,
    generate: Set<Seq<char>>,
    files: Seq<FileDescriptionView>,
    default: Seq<char>,
)
    requires
        strictly_increasing(entries),
        as_map(entries) == grouping(generate, files, default),
    ensures
        entries == grouped(generate, files, default),
        file_count(entries) == files.len(),
{
    lemma_grouped(generate, files, default);
    lemma_grouped_is_grouping(generate, files, default);
    lemma_entries_unique(entries, grouped(generate, files, default));
}

} // verus!
