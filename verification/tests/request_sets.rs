use prost_types::FileDescriptorProto;
use protoc_gen_pack::requests::{contains_name, output_filename_for};
use protoc_gen_pack::{FileDescription, Module, ModuleRequest, ModuleRequestSet};

fn descriptor(name: &str, package: &str) -> FileDescriptorProto {
    let mut descriptor = FileDescriptorProto::default();
    descriptor.name = Some(name.to_string());
    descriptor.package = Some(package.to_string());
    descriptor
}

fn file(name: &str, package: &str) -> FileDescription {
    FileDescription::new(name.to_string(), package.to_string(), descriptor(name, package))
}

fn names(list: &[&str]) -> Vec<String> {
    list.iter().map(|name| name.to_string()).collect()
}

fn group(
    generate: &[&str],
    files: Vec<FileDescription>,
    default: Option<&str>,
) -> ModuleRequestSet {
    ModuleRequestSet::new(names(generate), files, default).unwrap()
}

fn file_names(request: &ModuleRequest) -> Vec<String> {
    request.files().iter().map(|file| file.name().to_string()).collect()
}

fn paths(set: &ModuleRequestSet) -> Vec<Vec<String>> {
    set.requests().iter().map(|(module, _)| module.parts().clone()).collect()
}

fn module(package: &str) -> Module {
    Module::from_protobuf_package_name(package)
}

#[test]
fn files_are_grouped_by_package() {
    let set = group(
        &["f1.proto", "f2.proto"],
        vec![file("f1.proto", "foo.bar"), file("f2.proto", ""), file("f3.proto", "foo.bar")],
        Some("_"),
    );
    assert_eq!(set.requests().len(), 2);

    let foo_bar = set.for_module(&Module::from_parts(names(&["foo", "bar"]))).unwrap();
    assert_eq!(foo_bar.proto_package_name(), "foo.bar");
    assert_eq!(foo_bar.output_filename(), Some("foo.bar.java"));
    assert_eq!(file_names(foo_bar), names(&["f1.proto", "f3.proto"]));

    let root = set.for_module(&Module::from_parts(Vec::new())).unwrap();
    assert_eq!(root.proto_package_name(), "");
    assert_eq!(root.output_filename(), Some("_"));
    assert_eq!(file_names(root), names(&["f2.proto"]));

    assert_eq!(paths(&set), vec![names(&[]), names(&["foo", "bar"])]);
}

#[test]
fn every_file_is_in_one_module() {
    let files = vec![
        file("a.proto", "x"),
        file("b.proto", "y.z"),
        file("c.proto", "x"),
        file("d.proto", ""),
        file("e.proto", "y"),
        file("f.proto", "x"),
        file("g.proto", "Y.Z"),
    ];
    let set = group(&["a.proto"], files, None);
    let total: usize = set.requests().iter().map(|(_, request)| request.files().len()).sum();
    assert_eq!(total, 7);
    let mut seen: Vec<String> =
        set.requests().iter().flat_map(|(_, request)| file_names(request)).collect();
    seen.sort();
    assert_eq!(
        seen,
        names(&["a.proto", "b.proto", "c.proto", "d.proto", "e.proto", "f.proto", "g.proto"])
    );
    for (module, request) in set.requests() {
        assert!(!request.files().is_empty());
        for file in request.files() {
            assert_eq!(&Module::from_protobuf_package_name(file.package()), module);
        }
    }
    let x = set.for_module(&module("x")).unwrap();
    assert_eq!(file_names(x), names(&["a.proto", "c.proto", "f.proto"]));
    let y_z = set.for_module(&module("y.z")).unwrap();
    assert_eq!(file_names(y_z), names(&["b.proto", "g.proto"]));
}

#[test]
fn first_file_to_generate_names_the_output() {
    let set = group(
        &["a.proto", "b.proto"],
        vec![file("a.proto", "pkg"), file("b.proto", "pkg")],
        None,
    );
    let request = set.for_module(&module("pkg")).unwrap();
    assert_eq!(request.output_filename(), Some("pkg.java"));
    assert_eq!(file_names(request), names(&["a.proto", "b.proto"]));
}

#[test]
fn later_file_to_generate_does_not_rename_the_output() {
    let set = group(
        &["b.proto", "a.proto"],
        vec![file("a.proto", "fooBar"), file("b.proto", "foo_bar")],
        None,
    );
    assert_eq!(set.requests().len(), 1);
    let request = set.for_module(&module("foo_bar")).unwrap();
    assert_eq!(request.proto_package_name(), "fooBar");
    assert_eq!(request.output_filename(), Some("fooBar.java"));
}

#[test]
fn output_is_named_after_the_first_generated_file_not_the_first_file() {
    let set = group(
        &["b.proto", "c.proto"],
        vec![file("a.proto", "fooBar"), file("b.proto", "foo_bar"), file("c.proto", "FooBar")],
        None,
    );
    let request = set.for_module(&module("foo_bar")).unwrap();
    assert_eq!(request.proto_package_name(), "fooBar");
    assert_eq!(request.output_filename(), Some("foo_bar.java"));
    assert_eq!(file_names(request), names(&["a.proto", "b.proto", "c.proto"]));
}

#[test]
fn empty_package_takes_the_default_name() {
    let set = group(&["a.proto"], vec![file("a.proto", "")], Some("X"));
    let request = set.for_module(&module("")).unwrap();
    assert_eq!(request.output_filename(), Some("X"));
    assert_eq!(request.proto_package_name(), "");
}

#[test]
fn default_name_is_an_underscore_when_none_is_given() {
    let set = group(&["a.proto"], vec![file("a.proto", "")], None);
    assert_eq!(set.for_module(&module("")).unwrap().output_filename(), Some("_"));
}

#[test]
fn dots_alone_are_a_package_name_of_the_empty_path() {
    let set = group(&["a.proto"], vec![file("a.proto", "."), file("b.proto", "")], Some("X"));
    assert_eq!(set.requests().len(), 1);
    let request = set.for_module(&module("")).unwrap();
    assert_eq!(request.proto_package_name(), ".");
    assert_eq!(request.output_filename(), Some("..java"));
    assert_eq!(file_names(request), names(&["a.proto", "b.proto"]));
}

#[test]
fn file_that_is_not_generated_is_still_recorded() {
    let set = group(&["other.proto"], vec![file("dep.proto", "pkg")], Some("X"));
    let request = set.for_module(&module("pkg")).unwrap();
    assert_eq!(file_names(request), names(&["dep.proto"]));
    assert_eq!(request.output_filename(), None);
    assert_eq!(request.proto_package_name(), "pkg");
}

#[test]
fn file_that_is_not_generated_leaves_the_name_to_a_later_file() {
    let set = group(
        &["gen.proto"],
        vec![file("dep.proto", "pkg"), file("gen.proto", "pkg"), file("dep2.proto", "pkg")],
        None,
    );
    let request = set.for_module(&module("pkg")).unwrap();
    assert_eq!(request.output_filename(), Some("pkg.java"));
    assert_eq!(file_names(request), names(&["dep.proto", "gen.proto", "dep2.proto"]));
}

#[test]
fn generate_list_may_repeat_and_name_unknown_files() {
    let set = group(
        &["a.proto", "a.proto", "missing.proto"],
        vec![file("a.proto", "p"), file("b.proto", "q")],
        None,
    );
    assert_eq!(set.for_module(&module("p")).unwrap().output_filename(), Some("p.java"));
    assert_eq!(set.for_module(&module("q")).unwrap().output_filename(), None);
}

#[test]
fn requests_come_in_the_order_of_their_paths() {
    let set = group(
        &[],
        vec![
            file("1.proto", "b"),
            file("2.proto", "a.b"),
            file("3.proto", ""),
            file("4.proto", "a"),
        ],
        None,
    );
    assert_eq!(paths(&set), vec![names(&[]), names(&["a"]), names(&["a", "b"]), names(&["b"])]);
    let shown: Vec<String> = set.requests().iter().map(|(module, _)| module.to_string()).collect();
    assert_eq!(shown, names(&["", "a", "a::b", "b"]));
}

#[test]
fn order_of_requests_is_strict_and_follows_the_derived_order() {
    let packages = ["z", "b.a", "a.b.c", "", "a", "ab", "a.b", "B", "b", "a.a", "zz.a", "a.b"];
    let files = packages
        .iter()
        .enumerate()
        .map(|(at, package)| file(&format!("{at}.proto"), package))
        .collect();
    let set = group(&[], files, None);
    let requests = set.requests();
    assert_eq!(requests.len(), 10);
    for pair in requests.windows(2) {
        assert!(pair[0].0 < pair[1].0);
    }
}

#[test]
fn absent_module_is_not_found() {
    let set = group(&[], vec![file("a.proto", "a.b")], None);
    assert!(set.for_module(&module("a")).is_none());
    assert!(set.for_module(&module("a.b.c")).is_none());
    assert!(set.for_module(&module("")).is_none());
    assert!(set.for_module(&module("a.b")).is_some());
    assert!(set.for_module(&module("A.B")).is_some());
}

#[test]
fn no_file_gives_no_request() {
    let set = group(&["a.proto"], Vec::new(), Some("X"));
    assert!(set.requests().is_empty());
    assert!(set.for_module(&module("")).is_none());
}

#[test]
fn descriptors_are_carried_along() {
    let mut first = descriptor("a.proto", "p");
    first.syntax = Some("proto3".to_string());
    first.dependency = vec!["b.proto".to_string()];
    let second = descriptor("b.proto", "p");
    let set = group(
        &[],
        vec![
            FileDescription::new("a.proto".to_string(), "p".to_string(), first.clone()),
            FileDescription::new("b.proto".to_string(), "p".to_string(), second.clone()),
        ],
        None,
    );
    let request = set.for_module(&module("p")).unwrap();
    assert_eq!(request.files().len(), 2);
    assert_eq!(request.files()[0].descriptor(), &first);
    assert_eq!(request.files()[1].descriptor(), &second);
    assert_eq!(request.files()[0].name(), "a.proto");
    assert_eq!(request.files()[0].package(), "p");
}

#[test]
fn grouping_goes_by_the_described_package_not_the_descriptor() {
    let described = FileDescription::new(
        "a.proto".to_string(),
        "p".to_string(),
        descriptor("other.proto", "q"),
    );
    let set = group(&["a.proto"], vec![described], None);
    assert_eq!(paths(&set), vec![names(&["p"])]);
    assert_eq!(set.for_module(&module("p")).unwrap().output_filename(), Some("p.java"));
}

#[test]
fn files_can_be_walked_more_than_once() {
    let set = group(&[], vec![file("a.proto", "p"), file("b.proto", "p")], None);
    let request = set.for_module(&module("p")).unwrap();
    assert_eq!(file_names(request), file_names(request));
    assert_eq!(file_names(request), names(&["a.proto", "b.proto"]));
}

#[test]
fn name_is_looked_up_in_a_list() {
    let list = names(&["a.proto", "b.proto", "a.proto"]);
    assert!(contains_name(&list, "a.proto"));
    assert!(contains_name(&list, "b.proto"));
    assert!(!contains_name(&list, "c.proto"));
    assert!(!contains_name(&list, "a.prot"));
    assert!(!contains_name(&list, ""));
    assert!(!contains_name(&Vec::new(), "a.proto"));
}

#[test]
fn output_file_is_named_after_the_package() {
    assert_eq!(output_filename_for("foo.bar", "_"), "foo.bar.java");
    assert_eq!(output_filename_for("Foo", "X"), "Foo.java");
    assert_eq!(output_filename_for("", "X"), "X");
    assert_eq!(output_filename_for("", ""), "");
    assert_eq!(output_filename_for(".", "X"), "..java");
}
