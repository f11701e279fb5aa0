//! The grouping of the files of a request: which requests there are, and
//! what each of them holds.

use vstd::prelude::*;

use crate::file::FileDescriptionView;
use crate::module::{package_path, views};

verus! {

/// What a module request holds.
pub struct ModuleRequestView {
    /// The package name, as written, of the first file of the module.
    pub package: Seq<char>,
    /// The name of the output file, once one was chosen.
    pub filename: Option<Seq<char>>,
    /// The files of the module, in the order in which they were met.
    pub files: Seq<FileDescriptionView>,
}

/// The base name of the output file for files without a package, when the
/// caller names none.
pub open spec fn default_name(given: Option<&str>) -> Seq<char> {
    match given {
        Some(name) => name@,
        None => "_"@,
    }
}

/// The file names of a list, as a set.
pub open spec fn names(list: Seq<String>) -> Set<Seq<char>> {
    views(list).to_set()
}

/// The name of the output file for a package: the package name with the
/// extension `.java`, or the default name where the package name is empty.
pub open spec fn output_name(package: Seq<char>, default: Seq<char>) -> Seq<char> {
    if package.len() == 0 {
        default
    } else {
        package + ".java"@
    }
}

/// The files whose package has the given module path, in their order.
pub open spec fn files_of(files: Seq<FileDescriptionView>, path: Seq<Seq<char>>) -> Seq<
    FileDescriptionView,
> {
    files.filter(|file: FileDescriptionView| package_path(file.package) == path)
}

/// The index of the first file whose name is in the generate-set, if any.
pub open spec fn first_requested(generate: Set<Seq<char>>, files: Seq<FileDescriptionView>)
    -> Option<int>
    decreases files.len(),
{
    if files.len() == 0 {
        None
    } else {
        match first_requested(generate, files.drop_last()) {
            Some(at) => Some(at),
            None => if generate.contains(files.last().name) {
                Some(files.len() - 1)
            } else {
                None
            },
        }
    }
}

/// The name of the output file of a module with the given files: the one
/// that the first file to be generated asks for.
pub open spec fn chosen_filename(
    generate: Set<Seq<char>>,
    files: Seq<FileDescriptionView>,
    default: Seq<char>,
) -> Option<Seq<char>> {
    match first_requested(generate, files) {
        Some(at) => Some(output_name(files[at].package, default)),
        None => None,
    }
}

/// The request of the module with the given path.
pub open spec fn request_for(
    generate: Set<Seq<char>>,
    files: Seq<FileDescriptionView>,
    default: Seq<char>,
    path: Seq<Seq<char>>,
) -> ModuleRequestView {
    let own = files_of(files, path);
    ModuleRequestView {
        package: own[0].package,
        filename: chosen_filename(generate, own, default),
        files: own,
    }
}

/// The grouping of a list of files: one request for each module path that
/// the package of some file has, and none for any other path.
pub open spec fn grouping(
    generate: Set<Seq<char>>,
    files: Seq<FileDescriptionView>,
    default: Seq<char>,
) -> Map<Seq<Seq<char>>, ModuleRequestView> {
    Map::new(
        |path: Seq<Seq<char>>| files_of(files, path).len() > 0,
        |path: Seq<Seq<char>>| request_for(generate, files, default, path),
    )
}

/// The request of a module before its first file.
pub open spec fn fresh(package: Seq<char>) -> ModuleRequestView {
    ModuleRequestView { package, filename: None, files: Seq::empty() }
}

/// A request after one more file of its module: the file is added at the
/// end, and it decides the name of the output file if none was chosen before
/// and the file is to be generated.
pub open spec fn with_file(
    request: ModuleRequestView,
    generate: Set<Seq<char>>,
    file: FileDescriptionView,
    default: Seq<char>,
) -> ModuleRequestView {
    ModuleRequestView {
        package: request.package,
        filename: if request.filename is None && generate.contains(file.name) {
            Some(output_name(file.package, default))
        } else {
            request.filename
        },
        files: request.files.push(file),
    }
}

/// The first file to be generated is a file of the list, it is to be
/// generated, and no file before it is. There is none only if no file of the
/// list is to be generated.
pub proof fn lemma_first_requested(generate: Set<Seq<char>>, files: Seq<FileDescriptionView>)
    ensures
        match first_requested(generate, files) {
            Some(at) => {
                &&& 0 <= at < files.len()
                &&& generate.contains(files[at].name)
                &&& forall|i: int| 0 <= i < at ==> !generate.contains((#[trigger] files[i]).name)
            },
            None => forall|i: int|
                0 <= i < files.len() ==> !generate.contains((#[trigger] files[i]).name),
        },
    decreases files.len(),
{
    if files.len() > 0 {
        lemma_first_requested(generate, files.drop_last());
        match first_requested(generate, files.drop_last()) {
            Some(at) => {
                assert forall|i: int| 0 <= i < at implies !generate.contains(
                    (#[trigger] files[i]).name,
                ) by {
                    assert(files.drop_last()[i] == files[i]);
                }
            },
            None => {
                assert forall|i: int| 0 <= i < files.len() - 1 implies !generate.contains(
                    (#[trigger] files[i]).name,
                ) by {
                    assert(files.drop_last()[i] == files[i]);
                }
            },
        }
    }
}

/// One more file joins the files of the module of its own package, and of
/// no other.
pub proof fn lemma_files_of_push(
    files: Seq<FileDescriptionView>,
    file: FileDescriptionView,
    path: Seq<Seq<char>>,
)
    ensures
        files_of(files.push(file), path) == if package_path(file.package) == path {
            files_of(files, path).push(file)
        } else {
            files_of(files, path)
        },
{
    files.lemma_filter_push(file, |file: FileDescriptionView| package_path(file.package) == path);
}

/// The files of a module are files of the list whose package has the path
/// of the module.
pub proof fn lemma_files_of_members(
    files: Seq<FileDescriptionView>,
    path: Seq<Seq<char>>,
    at: int,
) -> (origin: int)
    requires
        0 <= at < files_of(files, path).len(),
    ensures
        0 <= origin < files.len(),
        files[origin] == files_of(files, path)[at],
        package_path(files[origin].package) == path,
{
    let belongs = |file: FileDescriptionView| package_path(file.package) == path;
    let own = files_of(files, path);
    files.lemma_filter_pred(belongs, at);
    assert(own.contains(own[at]));
    files.lemma_filter_contains_rev(belongs, own[at]);
    choose|origin: int| 0 <= origin < files.len() && files[origin] == own[at]
}

/// One more file changes the request of the module of its own package as
/// `with_file` says, and no other request.
pub proof fn lemma_request_for_push(
    generate: Set<Seq<char>>,
    files: Seq<FileDescriptionView>,
    file: FileDescriptionView,
    default: Seq<char>,
    path: Seq<Seq<char>>,
)
    ensures
        request_for(generate, files.push(file), default, path) == if package_path(file.package)
            != path {
            request_for(generate, files, default, path)
        } else if files_of(files, path).len() == 0 {
            with_file(fresh(file.package), generate, file, default)
        } else {
            with_file(request_for(generate, files, default, path), generate, file, default)
        },
{
    lemma_files_of_push(files, file, path);
    if package_path(file.package) == path {
        let own = files_of(files, path);
        let grown = own.push(file);
        assert(grown.drop_last() =~= own);
        lemma_first_requested(generate, own);
        if own.len() == 0 {
            assert(own =~= Seq::empty());
        }
    }
}

/// Every file is recorded: each file of the list is among the files of the
/// module of its own package, whether it is to be generated or not.
pub proof fn lemma_every_file_recorded(
    generate: Set<Seq<char>>,
    files: Seq<FileDescriptionView>,
    default: Seq<char>,
    at: int,
)
    requires
        0 <= at < files.len(),
    ensures
        grouping(generate, files, default).dom().contains(package_path(files[at].package)),
        grouping(generate, files, default)[package_path(files[at].package)].files.contains(
            files[at],
        ),
{
    let path = package_path(files[at].package);
    files.lemma_filter_contains(
        |file: FileDescriptionView| package_path(file.package) == path,
        at,
    );
}

/// A module has an output file exactly when one of its files is to be
/// generated: a file that is not to be generated gives its module none.
pub proof fn lemma_output_file_needs_file_to_generate(
    generate: Set<Seq<char>>,
    files: Seq<FileDescriptionView>,
    default: Seq<char>,
    path: Seq<Seq<char>>,
)
    ensures
        request_for(generate, files, default, path).filename is Some <==> exists|i: int|
            0 <= i < files.len() && package_path((#[trigger] files[i]).package) == path
                && generate.contains(files[i].name),
{
    let own = files_of(files, path);
    lemma_first_requested(generate, own);
    match first_requested(generate, own) {
        Some(at) => {
            let origin = lemma_files_of_members(files, path, at);
            assert(package_path(files[origin].package) == path && generate.contains(
                files[origin].name,
            ));
        },
        None => {
            if exists|i: int|
                0 <= i < files.len() && package_path((#[trigger] files[i]).package) == path
                    && generate.contains(files[i].name) {
                let i = choose|i: int|
                    0 <= i < files.len() && package_path((#[trigger] files[i]).package) == path
                        && generate.contains(files[i].name);
                files.lemma_filter_contains(
                    |file: FileDescriptionView| package_path(file.package) == path,
                    i,
                );
                let at = choose|at: int| 0 <= at < own.len() && own[at] == files[i];
                assert(!generate.contains(own[at].name));
            }
        },
    }
}

/// First wins: the first file of a module that is to be generated decides
/// the name of the output file of the module, whatever files follow it. The
/// name is the default name where that file declares no package.
pub proof fn lemma_first_file_to_generate_wins(
    generate: Set<Seq<char>>,
    files: Seq<FileDescriptionView>,
    default: Seq<char>,
    at: int,
)
    requires
        0 <= at < files.len(),
        generate.contains(files[at].name),
        forall|i: int|
            0 <= i < at && package_path((#[trigger] files[i]).package) == package_path(
                files[at].package,
            ) ==> !generate.contains(files[i].name),
    ensures
        grouping(generate, files, default).dom().contains(package_path(files[at].package)),
        grouping(generate, files, default)[package_path(files[at].package)].filename == Some(
            output_name(files[at].package, default),
        ),
        files[at].package.len() == 0 ==> grouping(generate, files, default)[package_path(
            files[at].package,
        )].filename == Some(default),
    decreases files.len(),
{
    let path = package_path(files[at].package);
    let first = files.drop_last();
    let last = files.last();
    assert(files =~= first.push(last));
    lemma_every_file_recorded(generate, files, default, at);
    lemma_request_for_push(generate, first, last, default, path);
    if at == files.len() - 1 {
        let own = files_of(first, path);
        lemma_first_requested(generate, own);
        if first_requested(generate, own) is Some {
            let chosen = first_requested(generate, own).unwrap();
            let origin = lemma_files_of_members(first, path, chosen);
            assert(first[origin] == files[origin]);
            assert(false);
        }
    } else {
        assert(first[at] == files[at]);
        assert forall|i: int|
            0 <= i < at && package_path((#[trigger] first[i]).package) == package_path(
                first[at].package,
            ) implies !generate.contains(first[i].name) by {
            assert(first[i] == files[i]);
        }
        lemma_first_file_to_generate_wins(generate, first, default, at);
    }
}

} // verus!
