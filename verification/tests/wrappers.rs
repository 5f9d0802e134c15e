//! What the library takes from its outside calls, seen through its public
//! functions: parsing and query matches (names, spans), UTF-8 text of
//! names, the hash behind operator codes, and byte-range text of members.

use dupehound::extract::{analyze_source, extract_class_shapes};
use dupehound::lang::Lang;
use dupehound::normalize::op_code;

#[test]
fn non_ascii_names_come_through_whole() {
    let src = "def größe(a, b):\n    c = a * b + 1\n    d = c - a * 2\n    return c + d * b\n";
    let fa = analyze_source(7, Lang::Python, src, 5, false).unwrap();
    assert_eq!(fa.functions.len(), 1);
    let f = &fa.functions[0];
    assert_eq!(f.name, "größe");
    assert_eq!(f.file, 7);
    assert_eq!((f.start_line, f.end_line), (1, 4));
    assert_eq!(f.start_byte, 0);
    assert_eq!(f.end_byte as usize, src.len() - 1);
    assert!(!f.is_test);
}

#[test]
fn test_files_mark_every_unit() {
    let src = "function f(a) {\n  const b = a * 2;\n  const c = b + a * 7;\n  return a + b + c;\n}\n";
    let fa = analyze_source(0, Lang::Javascript, src, 5, true).unwrap();
    assert_eq!(fa.functions.len(), 1);
    assert!(fa.functions[0].is_test);
    let fa = analyze_source(0, Lang::Javascript, src, 500, false).unwrap();
    assert!(fa.functions.is_empty());
    assert_eq!(fa.total_lines, 5);
    assert_eq!(fa.sig_lines, 5);
}

#[test]
fn operator_codes_tell_texts_apart() {
    assert_ne!(op_code("+"), op_code("reduce"));
    assert_ne!(op_code("let"), op_code("defn"));
}

#[test]
fn member_signatures_keep_identifiers_and_types() {
    let src = "class A {\n  public int Id { get; set; }\n  public string Name { get; set; }\n  public void Run() { }\n}\nclass B {\n  public int Id { get; set; }\n  public string Title { get; set; }\n  public void Run() { }\n}\n";
    let shapes = extract_class_shapes(3, Lang::Csharp, src, false);
    assert_eq!(shapes.len(), 2);
    assert_eq!(shapes[0].name, "A");
    assert_eq!(shapes[0].sig_lines, 3);
    assert_eq!(shapes[0].file, 3);
    assert!(!shapes[0].is_trait_impl_method);
    let a = &shapes[0].fingerprints;
    let b = &shapes[1].fingerprints;
    let shared = a.iter().filter(|x| b.contains(x)).count();
    assert_eq!(shared, 2);
}
