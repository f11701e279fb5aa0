use protoc_gen_pack::text::Rank;
use protoc_gen_pack::Module;

fn path(package: &str) -> Vec<String> {
    Module::from_protobuf_package_name(package).parts().clone()
}

fn owned(parts: &[&str]) -> Vec<String> {
    parts.iter().map(|part| part.to_string()).collect()
}

#[test]
fn package_name_is_split_at_dots() {
    let module = Module::from_protobuf_package_name("foo.bar");
    assert_eq!(module.parts(), &owned(&["foo", "bar"]));
    assert_eq!(module.len(), 2);
    assert!(!module.is_empty());
}

#[test]
fn empty_package_name_gives_the_empty_path() {
    let module = Module::from_protobuf_package_name("");
    assert_eq!(module.parts(), &owned(&[]));
    assert_eq!(module.len(), 0);
    assert!(module.is_empty());
}

#[test]
fn stray_dots_leave_no_component() {
    assert_eq!(path("."), owned(&[]));
    assert_eq!(path(".."), owned(&[]));
    assert_eq!(path("a..b"), owned(&["a", "b"]));
    assert_eq!(path(".a"), owned(&["a"]));
    assert_eq!(path("a."), owned(&["a"]));
    assert_eq!(path("..a...b.c.."), owned(&["a", "b", "c"]));
}

#[test]
fn segments_are_put_in_snake_case() {
    assert_eq!(path("FooBar.BazQux"), owned(&["foo_bar", "baz_qux"]));
    assert_eq!(path("XMLHttpRequest"), owned(&["xml_http_request"]));
    assert_eq!(path("google.protobuf.Compiler"), owned(&["google", "protobuf", "compiler"]));
    assert_eq!(path("my-pkg.v1"), owned(&["my_pkg", "v1"]));
}

#[test]
fn segment_without_letter_or_digit_gives_an_empty_component() {
    assert_eq!(path("_"), owned(&[""]));
    assert_eq!(path("a._.b"), owned(&["a", "", "b"]));
}

#[test]
fn derived_components_are_lower_case_words_joined_by_underscores() {
    for package in ["", ".", "..", "a..b", ".a", "a.", "Foo.BarBaz", "HTTPServer.v2Beta"] {
        for part in path(package) {
            assert!(!part.is_empty());
            assert!(part
                .chars()
                .all(|c| c == '_' || c.is_ascii_lowercase() || c.is_ascii_digit()));
        }
    }
}

#[test]
fn deriving_twice_gives_equal_paths() {
    for package in ["", "foo", "foo.Bar", "a..b", "Foo.BarBaz"] {
        let first = Module::from_protobuf_package_name(package);
        let second = Module::from_protobuf_package_name(package);
        assert_eq!(first, second);
        assert_eq!(first.parts(), second.parts());
        assert_eq!(first.compare(&second), Rank::Same);
        assert_eq!(first.cmp(&second), std::cmp::Ordering::Equal);
    }
}

#[test]
fn from_parts_takes_the_components_as_they_are() {
    let module = Module::from_parts(owned(&["FooBar", "", "a.b"]));
    assert_eq!(module.parts(), &owned(&["FooBar", "", "a.b"]));
    assert_eq!(module.len(), 3);
    assert!(!module.is_empty());
    let empty = Module::from_parts(Vec::new());
    assert_eq!(empty.len(), 0);
    assert!(empty.is_empty());
}

#[test]
fn from_parts_and_from_package_name_agree_on_normal_names() {
    assert_eq!(
        Module::from_parts(owned(&["foo", "bar"])),
        Module::from_protobuf_package_name("foo.bar")
    );
}

#[test]
fn path_is_shown_with_double_colons() {
    assert_eq!(Module::from_protobuf_package_name("foo.bar.baz").to_string(), "foo::bar::baz");
    assert_eq!(Module::from_protobuf_package_name("foo").to_string(), "foo");
    assert_eq!(Module::from_protobuf_package_name("").to_string(), "");
    assert_eq!(Module::from_parts(owned(&["a", "", "b"])).to_string(), "a::::b");
}

#[test]
fn paths_compare_component_by_component() {
    let empty = Module::from_protobuf_package_name("");
    let a = Module::from_protobuf_package_name("a");
    let a_b = Module::from_protobuf_package_name("a.b");
    let b = Module::from_protobuf_package_name("b");
    let in_order = [&empty, &a, &a_b, &b];
    for (i, left) in in_order.iter().enumerate() {
        for (j, right) in in_order.iter().enumerate() {
            let expected = if i < j {
                Rank::Before
            } else if i == j {
                Rank::Same
            } else {
                Rank::After
            };
            assert_eq!(left.compare(right), expected);
        }
    }
}

#[test]
fn compare_agrees_with_the_derived_order() {
    let samples = [
        owned(&[]),
        owned(&["a"]),
        owned(&["a", "b"]),
        owned(&["ab"]),
        owned(&["b"]),
        owned(&["a", ""]),
        owned(&[""]),
        owned(&["z"]),
        owned(&["\u{e9}"]),
        owned(&["\u{10000}"]),
        owned(&["\u{ffff}"]),
        owned(&["A"]),
        owned(&["a", "b", "c"]),
    ];
    for left in &samples {
        for right in &samples {
            let left = Module::from_parts(left.clone());
            let right = Module::from_parts(right.clone());
            let expected = match left.cmp(&right) {
                std::cmp::Ordering::Less => Rank::Before,
                std::cmp::Ordering::Equal => Rank::Same,
                std::cmp::Ordering::Greater => Rank::After,
            };
            assert_eq!(left.compare(&right), expected);
        }
    }
}

#[test]
fn shorter_path_comes_before_its_extensions() {
    let short = Module::from_parts(owned(&["a", "b"]));
    let long = Module::from_parts(owned(&["a", "b", "c"]));
    assert_eq!(short.compare(&long), Rank::Before);
    assert_eq!(long.compare(&short), Rank::After);
}
