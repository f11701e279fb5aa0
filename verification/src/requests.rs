//! Module requests: the files of a request, grouped by the module path of
//! their package.

use prost::DecodeError;
use vstd::prelude::*;
use vstd::string::StringExecFns;

use crate::entries::{
    as_map, file_count, has_path, holds_own_files, lemma_as_map_entry, strictly_increasing,
    well_formed, Entry,
};
use crate::file::{file_views, FileDescription, FileDescriptionView};
use crate::fold::{
    grouped, lemma_grouping_step, lemma_partition_complete, lemma_represents_grouping,
    lemma_represents_well_formed, represents,
};
use crate::grouping::{
    default_name, files_of, fresh, grouping, names, output_name, with_file, ModuleRequestView,
};
use crate::module::{lemma_path_order, package_path, path_precedes, views, Module};
use crate::text::{compare_text, Rank};

verus! {

/// The error with which `prost` refuses a malformed message. Nothing is known
/// of its contents here.
#[verifier::external_type_specification]
#[verifier::external_body]
pub struct ExDecodeError(prost::DecodeError);

/// A code generation request for one module.
pub struct ModuleRequest {
    proto_package_name: String,
    output_filename: Option<String>,
    files: Vec<FileDescription>,
}

impl View for ModuleRequest {
    type V = ModuleRequestView;

    /// The package name, the name of the output file and the files.
    closed spec fn view(&self) -> ModuleRequestView {
        ModuleRequestView {
            package: self.proto_package_name@,
            filename: match self.output_filename {
                Some(name) => Some(name@),
                None => None,
            },
            files: file_views(self.files@),
        }
    }
}

impl ModuleRequest {
    /// A request for the module of the given package, without files and
    /// without an output file.
    fn new(proto_package_name: String) -> (request: ModuleRequest)
        ensures
            request@ == (ModuleRequestView {
                package: proto_package_name@,
                filename: None,
                files: Seq::empty(),
            }),
    {
        let request = ModuleRequest {
            proto_package_name,
            output_filename: None,
            files: Vec::new(),
        };
        assert(file_views(request.files@) =~= Seq::empty());
        request
    }

    /// Sets the name of the output file, which is set at most once.
    fn with_output_filename(&mut self, filename: String)
        requires
            old(self)@.filename is None,
        ensures
            final(self)@ == (ModuleRequestView { filename: Some(filename@), ..old(self)@ }),
    {
        self.output_filename = Some(filename);
    }

    /// Adds a file at the end of the files of the module.
    fn push_file_descriptor_proto(&mut self, file: FileDescription)
        ensures
            final(self)@ == (ModuleRequestView {
                files: old(self)@.files.push(file@),
                ..old(self)@
            }),
    {
        assert(file_views(self.files@.push(file)) =~= file_views(self.files@).push(file@));
        self.files.push(file);
    }

    /// The package name of the module, as the first of its files wrote it.
    pub fn proto_package_name(&self) -> (name: &str)
        ensures
            name@ == self@.package,
    {
        self.proto_package_name.as_str()
    }

    /// The name of the output file of the module, if one was chosen.
    pub fn output_filename(&self) -> (name: Option<&str>)
        ensures
            name is Some <==> self@.filename is Some,
            name is Some ==> name.unwrap()@ == self@.filename.unwrap(),
    {
        match &self.output_filename {
            Some(name) => Some(name.as_str()),
            None => None,
        }
    }

    /// The files of the module, in the order in which they were met.
    pub fn files(&self) -> (files: &Vec<FileDescription>)
        ensures
            file_views(files@) == self@.files,
    {
        &self.files
    }
}

/// The entries that a list of modules with their requests stands for.
pub open spec fn pairs(requests: Seq<(Module, ModuleRequest)>) -> Seq<Entry> {
    requests.map_values(|request: (Module, ModuleRequest)| (request.0@, request.1@))
}

/// Whether a list of file names holds the given name.
pub fn contains_name(list: &Vec<String>, name: &str) -> (found: bool)
    ensures
        found <==> names(list@).contains(name@),
{
    let mut at: usize = 0;
    while at < list.len()
        invariant
            at <= list.len(),
            forall|i: int| 0 <= i < at ==> (#[trigger] views(list@)[i]) != name@,
        decreases list.len() - at,
    {
        if compare_text(list[at].as_str(), name) == Rank::Same {
            proof {
                assert(views(list@)[at as int] == name@);
                assert(views(list@).contains(name@));
            }
            return true;
        }
        at = at + 1;
    }
    proof {
        if views(list@).contains(name@) {
            let i = choose|i: int| 0 <= i < views(list@).len() && views(list@)[i] == name@;
            assert(views(list@)[i] != name@);
        }
    }
    false
}

/// The name of the output file for a package: the package name with the
/// extension `.java`, or the default name where the package name is empty.
pub fn output_filename_for(package: &str, default: &str) -> (name: String)
    ensures
        name@ == output_name(package@, default@),
{
    if package.is_empty() {
        default.to_owned()
    } else {
        package.to_owned().concat(".java")
    }
}

/// Looks for a module among requests in increasing order: `Ok` with the
/// place of its request, or `Err` with the place where its request belongs.
fn locate(requests: &Vec<(Module, ModuleRequest)>, module: &Module) -> (place: Result<
    usize,
    usize,
>)
    requires
        strictly_increasing(pairs(requests@)),
    ensures
        match place {
            Ok(at) => at < requests.len() && pairs(requests@)[at as int].0 == module@,
            Err(at) => {
                &&& at <= requests.len()
                &&& forall|i: int|
                    0 <= i < at ==> path_precedes((#[trigger] pairs(requests@)[i]).0, module@)
                &&& forall|i: int|
                    at <= i < requests.len() ==> path_precedes(
                        module@,
                        (#[trigger] pairs(requests@)[i]).0,
                    )
            },
        },
{
    let ghost entries = pairs(requests@);
    let mut low: usize = 0;
    let mut high: usize = requests.len();
    while low < high
        invariant
            low <= high <= requests.len(),
            entries == pairs(requests@),
            strictly_increasing(entries),
            forall|i: int| 0 <= i < low ==> path_precedes((#[trigger] entries[i]).0, module@),
            forall|i: int|
                high <= i < requests.len() ==> path_precedes(module@, (#[trigger] entries[i]).0),
        decreases high - low,
    {
        let middle = low + (high - low) / 2;
        let rank = requests[middle].0.compare(module);
        assert(entries[middle as int].0 == requests@[middle as int].0@);
        match rank {
            Rank::Same => {
                return Ok(middle);
            },
            Rank::Before => {
                assert forall|i: int| 0 <= i < middle + 1 implies path_precedes(
                    (#[trigger] entries[i]).0,
                    module@,
                ) by {
                    if i < middle {
                        assert(path_precedes(entries[i].0, entries[middle as int].0));
                        lemma_path_order(entries[i].0, entries[middle as int].0, module@);
                    }
                }
                low = middle + 1;
            },
            Rank::After => {
                assert forall|i: int| middle <= i < requests.len() implies path_precedes(
                    module@,
                    (#[trigger] entries[i]).0,
                ) by {
                    if middle < i {
                        assert(path_precedes(entries[middle as int].0, entries[i].0));
                        lemma_path_order(module@, entries[middle as int].0, entries[i].0);
                    }
                }
                high = middle;
            },
        }
    }
    Err(low)
}

/// A set of requests to generate code for a series of modules: one request
/// for each module path, held in the order of the paths.
pub struct ModuleRequestSet {
    requests: Vec<(Module, ModuleRequest)>,
}

impl View for ModuleRequestSet {
    type V = Map<Seq<Seq<char>>, ModuleRequestView>;

    /// The requests of the set, by module path.
    open spec fn view(&self) -> Map<Seq<Seq<char>>, ModuleRequestView> {
        as_map(self.entries())
    }
}

impl ModuleRequestSet {
    /// The entries of the set, in the order in which they are held.
    pub closed spec fn entries(&self) -> Seq<Entry> {
        pairs(self.requests@)
    }

    /// Every set is well formed.
    #[verifier::type_invariant]
    spec fn valid(&self) -> bool {
        well_formed(self.entries())
    }

    /// Groups the files of a request by the module path of their package.
    ///
    /// `input_protos` names the files to generate code for, `proto_file`
    /// lists all the files of the request, and `default_package_filename` is
    /// the base name of the output file for files without a package (`_`
    /// where none is given). The grouping never fails.
    pub fn new(
        input_protos: Vec<String>,
        proto_file: Vec<FileDescription>,
        default_package_filename: Option<&str>,
    ) -> (made: Result<ModuleRequestSet, DecodeError>)
        ensures
            made is Ok,
            made.unwrap()@ == grouping(
                names(input_protos@),
                file_views(proto_file@),
                default_name(default_package_filename),
            ),
            made.unwrap().entries() == grouped(
                names(input_protos@),
                file_views(proto_file@),
                default_name(default_package_filename),
            ),
            well_formed(made.unwrap().entries()),
            file_count(made.unwrap().entries()) == proto_file@.len(),
    {
        Ok(Self::new_decoded(input_protos, proto_file, default_package_filename.unwrap_or("_")))
    }

    /// Groups the files in one pass over them, in their order.
    fn new_decoded(
        input_protos: Vec<String>,
        proto_file: Vec<FileDescription>,
        default_package_filename: &str,
    ) -> (made: ModuleRequestSet)
        ensures
            made@ == grouping(
                names(input_protos@),
                file_views(proto_file@),
                default_package_filename@,
            ),
            made.entries() == grouped(
                names(input_protos@),
                file_views(proto_file@),
                default_package_filename@,
            ),
            well_formed(made.entries()),
            file_count(made.entries()) == proto_file@.len(),
    {
        let ghost generate = names(input_protos@);
        let ghost all = file_views(proto_file@);
        let ghost default = default_package_filename@;
        let mut requests: Vec<(Module, ModuleRequest)> = Vec::new();
        proof {
            assert(all.take(0) =~= Seq::empty());
            assert(pairs(requests@) =~= Seq::empty());
            assert forall|path: Seq<Seq<char>>| (#[trigger] files_of(
                Seq::<FileDescriptionView>::empty(),
                path,
            )).len() == 0 by {
                reveal(Seq::filter);
            }
        }
        for file in files: proto_file.into_iter()
            invariant
                files.seq() == proto_file@,
                generate == names(input_protos@),
                all == file_views(proto_file@),
                default == default_package_filename@,
                represents(pairs(requests@), generate, all.take(files.index() as int), default),
                file_count(pairs(requests@)) == files.index(),
        {
            let ghost seen = all.take(files.index() as int);
            let ghost before = pairs(requests@);
            let module = Module::from_protobuf_package_name(file.package());
            let place = locate(&requests, &module);
            let at = match place {
                Ok(at) => at,
                Err(at) => {
                    let request = ModuleRequest::new(file.package().to_owned());
                    proof {
                        assert(pairs(requests@.insert(at as int, (module, request)))
                            =~= before.insert(at as int, (module@, fresh(file@.package))));
                    }
                    requests.insert(at, (module, request));
                    at
                },
            };
            let ghost placed = pairs(requests@);
            assert(0 <= at < placed.len());
            assert(placed[at as int].0 == package_path(file@.package));
            if requests[at].1.output_filename().is_none() && contains_name(
                &input_protos,
                file.name(),
            ) {
                let filename = output_filename_for(file.package(), default_package_filename);
                requests[at].1.with_output_filename(filename);
            }
            let ghost view = file@;
            requests[at].1.push_file_descriptor_proto(file);
            proof {
                let after = pairs(requests@);
                assert(after =~= placed.update(
                    at as int,
                    (
                        package_path(view.package),
                        with_file(placed[at as int].1, generate, view, default),
                    ),
                ));
                assert(all.take(files.index() + 1) =~= seen.push(view));
                lemma_grouping_step(
                    before,
                    after,
                    generate,
                    seen,
                    view,
                    default,
                    at as int,
                    place is Ok,
                );
            }
        }
        proof {
            assert(all.take(proto_file@.len() as int) =~= all);
            lemma_represents_grouping(pairs(requests@), generate, all, default);
            lemma_represents_well_formed(pairs(requests@), generate, all, default);
            lemma_partition_complete(pairs(requests@), generate, all, default);
        }
        ModuleRequestSet { requests }
    }

    /// All the requests with their module paths, in strictly increasing order
    /// of the paths.
    pub fn requests(&self) -> (requests: &Vec<(Module, ModuleRequest)>)
        ensures
            pairs(requests@) == self.entries(),
            well_formed(self.entries()),
    {
        proof {
            use_type_invariant(self);
        }
        &self.requests
    }

    /// The request of the given module, if the set holds one.
    pub fn for_module(&self, module: &Module) -> (request: Option<&ModuleRequest>)
        ensures
            request is Some <==> self@.dom().contains(module@),
            request is Some ==> request.unwrap()@ == self@[module@],
            request is Some ==> holds_own_files((module@, request.unwrap()@)),
    {
        proof {
            use_type_invariant(self);
        }
        match locate(&self.requests, module) {
            Ok(at) => {
                proof {
                    lemma_as_map_entry(self.entries(), at as int);
                    assert(holds_own_files(self.entries()[at as int]));
                }
                Some(&self.requests[at].1)
            },
            Err(at) => {
                proof {
                    if has_path(self.entries(), module@) {
                        let i = choose|i: int|
                            0 <= i < self.entries().len() && (#[trigger] self.entries()[i]).0
                                == module@;
                        lemma_path_order(module@, module@, module@);
                    }
                }
                None
            },
        }
    }
}

} // verus!
