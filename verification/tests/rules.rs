//! Concrete cases of the library's rules: path and content rules, the Rust
//! test-module boundary, class-shape members, languages by extension, the
//! union-find sets and the discovery decision for one file.

use dupehound::extract::{cfg_test_mod_offset, is_shape_member};
use dupehound::lang::Lang;
use dupehound::union_find::UnionFind;
use std::path::PathBuf;
use dupehound::walk::{
    content_skip_reason, default_excluded, discovered_file, discovery_order, is_test_path,
    source_text, NON_UTF8,
};

#[test]
fn path_rules_ignore_case() {
    assert!(is_test_path("SRC/API.SPEC.TS"));
    assert!(is_test_path("Pkg/Server_Test.GO"));
    assert!(default_excluded("NODE_MODULES/lib/index.js"));
    assert!(default_excluded("web/App.MIN.JS"));
    assert_eq!(is_test_path("src/Api.ts"), is_test_path("src/api.ts"));
}

#[test]
fn test_and_excluded_directories_count_at_any_depth() {
    assert!(is_test_path("a/b/Tests/c/x.py"));
    assert!(is_test_path("pkg/web/__TESTS__/y.ts"));
    assert!(is_test_path("testdata/z.go"));
    assert!(!is_test_path("a/b/contest/c/x.py"));
    assert!(default_excluded("a/b/Node_Modules/c.js"));
    assert!(default_excluded("deep/er/VENDOR/x.go"));
    assert!(!default_excluded("a/vendors/x.go"));
}

#[test]
fn default_exclusions_cover_directories_and_generated_names() {
    assert!(default_excluded("node_modules/x/y.js"));
    assert!(default_excluded("a/vendor/b.go"));
    assert!(default_excluded("target/debug/build.rs"));
    assert!(default_excluded("api/types.d.ts"));
    assert!(default_excluded("proto/user_pb2.py"));
    assert!(default_excluded("gen/model.generated.cs"));
    assert!(!default_excluded("src/vendored.rs"));
    assert!(!default_excluded("src/app.ts"));
}

#[test]
fn content_reasons_cover_each_marker_and_average_length() {
    assert_eq!(content_skip_reason("// @generated\nfn a() {}"), Some("generated"));
    assert_eq!(content_skip_reason("# AUTO-GENERATED FILE\nx = 1"), Some("generated"));
    // A marker past the tenth line does not count.
    let late = format!("{}// @generated\n", "line\n".repeat(10));
    assert_eq!(content_skip_reason(&late), None);
    // Lines of 301 bytes on average, none over 2000.
    let long_lines = format!("{}\n", "y".repeat(301)).repeat(5);
    assert_eq!(content_skip_reason(&long_lines), Some("minified"));
    let ok_lines = format!("{}\n", "y".repeat(300)).repeat(5);
    assert_eq!(content_skip_reason(&ok_lines), None);
    assert_eq!(content_skip_reason(""), None);
}

#[test]
fn cfg_test_boundary_needs_an_inline_module() {
    assert_eq!(
        cfg_test_mod_offset("fn a() {}\n#[cfg(test)]\nmod tests {\n}\n"),
        Some(10)
    );
    assert_eq!(cfg_test_mod_offset("#[cfg(test)] pub mod t { }"), Some(0));
    assert_eq!(cfg_test_mod_offset("#[cfg(test)]\nmod tests;\n"), None);
    assert_eq!(cfg_test_mod_offset("#[cfg(test)]\nuse std::fmt;\nfn a() {}\n"), None);
    // The first attribute only guards a `use`; the second opens the module.
    assert_eq!(
        cfg_test_mod_offset("#[cfg(test)]\nuse x;\n#[cfg(test)]\nmod m {}\n"),
        Some(20)
    );
}

#[test]
fn shape_members_are_declarations_but_not_nested_types() {
    assert!(is_shape_member("property_declaration"));
    assert!(is_shape_member("method_declaration"));
    assert!(is_shape_member("constructor_declaration"));
    assert!(!is_shape_member("class_declaration"));
    assert!(!is_shape_member("enum_declaration"));
    assert!(!is_shape_member("namespace_declaration"));
    assert!(!is_shape_member("using_directive"));
}

#[test]
fn languages_by_extension() {
    assert_eq!(Lang::from_path("src/app.ts"), Some(Lang::Typescript));
    assert_eq!(Lang::from_path("src/App.tsx"), Some(Lang::Tsx));
    assert_eq!(Lang::from_path("lib/x.c++"), Some(Lang::Cpp));
    assert_eq!(Lang::from_path("core.cljs"), Some(Lang::Clojure));
    assert_eq!(Lang::from_path("init.el"), Some(Lang::Elisp));
    assert_eq!(Lang::from_path("pkg.asd"), Some(Lang::CommonLisp));
    assert_eq!(Lang::from_path("README.md"), None);
    assert_eq!(Lang::from_path("Makefile"), None);
    assert_eq!(Lang::Cpp.name(), "C++");
    assert_eq!(Lang::Csharp.name(), "C#");
    assert!(Lang::Csharp.shape_query_source().is_some());
    assert!(Lang::Java.shape_query_source().is_none());
    assert!(Lang::Csharp.shape_query().is_some());
}

#[test]
fn union_find_merges_sets() {
    let mut uf = UnionFind::new(5);
    assert_eq!(uf.find(3), 3);
    uf.union(0, 1);
    uf.union(3, 4);
    uf.union(1, 4);
    let r = uf.find(0);
    assert_eq!(uf.find(1), r);
    assert_eq!(uf.find(3), r);
    assert_eq!(uf.find(4), r);
    assert_ne!(uf.find(2), r);
    assert_eq!(uf.find(2), 2);
}

#[test]
fn discovery_keeps_supported_files_with_their_test_flag() {
    let f = discovered_file(PathBuf::from("/repo/src/app.ts"), "src/app.ts".to_string()).unwrap();
    assert_eq!(f.lang, Lang::Typescript);
    assert!(!f.is_test);
    assert_eq!(f.rel, "src/app.ts");
    assert_eq!(f.path, PathBuf::from("/repo/src/app.ts"));
    let t = discovered_file(PathBuf::from("/repo/tests/test_x.py"), "tests/test_x.py".to_string())
        .unwrap();
    assert_eq!(t.lang, Lang::Python);
    assert!(t.is_test);
    assert!(discovered_file(PathBuf::from("/repo/README.md"), "README.md".to_string()).is_none());
}

#[test]
fn discovery_lists_files_by_relative_path_bytes() {
    let rels = ["b.py", "a/z.ts", "a.rs", "A.go", "a/b.ts"];
    let files: Vec<_> = rels
        .iter()
        .map(|r| discovered_file(PathBuf::from(format!("/repo/{r}")), r.to_string()).unwrap())
        .collect();
    assert_eq!(discovery_order(&files), vec![3, 2, 4, 1, 0]);
    assert!(discovery_order(&Vec::new()).is_empty());
}

#[test]
fn file_bytes_become_text_or_a_reason() {
    assert_eq!(source_text(b"fn a() {}\n"), Ok("fn a() {}\n".to_string()));
    assert_eq!(source_text(&[0x66, 0xff, 0x6e]), Err(NON_UTF8));
    assert_eq!(source_text(b"// @generated\nfn a() {}"), Err("generated"));
    let long = format!("var a = {};\n", "1".repeat(2500));
    assert_eq!(source_text(long.as_bytes()), Err("minified"));
}

#[test]
fn a_new_union_find_has_every_element_alone() {
    let mut uf = UnionFind::new(4);
    for x in 0..4 {
        assert_eq!(uf.find(x), x);
    }
    uf.union(2, 3);
    let r = uf.find(3);
    assert_eq!(uf.find(r), r);
    assert_eq!(uf.find(2), r);
}
