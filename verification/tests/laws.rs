//! The library's laws on concrete values: clusters are the connectivity
//! classes of the pairs, ranked and ordered; winnowing keeps a shared run;
//! normalization ignores names, literals, positions and comments.

use dupehound::cluster::{build_clusters, similarity};
use dupehound::extract::{analyze_source, FunctionUnit};
use dupehound::fingerprint::{winnow, KGRAM, WINDOW};
use dupehound::graph::Pair;
use dupehound::lang::Lang;
use dupehound::normalize::{normalize, significant_lines, ID, NUM, STR};
use dupehound::syntax::{build_tree, NodeInfo};

fn unit(file: u32, start_line: u32, bytes: (u32, u32), sig: u32, fps: Vec<u64>) -> FunctionUnit {
    FunctionUnit {
        file,
        lang: Lang::Go,
        name: format!("f{file}_{start_line}"),
        start_line,
        end_line: start_line + sig,
        start_byte: bytes.0,
        end_byte: bytes.1,
        sig_lines: sig,
        fingerprints: fps,
        is_test: false,
        is_trait_impl_method: false,
    }
}

#[test]
fn clusters_are_the_classes_of_the_pairs() {
    let functions = vec![
        unit(0, 1, (0, 10), 5, vec![1, 2]),
        unit(1, 1, (0, 10), 6, vec![1, 2]),
        unit(2, 1, (0, 10), 7, vec![3, 4]),
        unit(3, 1, (0, 10), 8, vec![3, 4]),
        unit(4, 1, (0, 10), 9, vec![1, 2]),
    ];
    // 0-1 and 1-4 chain into one class; 2-3 is another; nothing joins them.
    let pairs = vec![Pair { a: 0, b: 1 }, Pair { a: 2, b: 3 }, Pair { a: 1, b: 4 }];
    let clusters = build_clusters(&functions, &pairs);
    assert_eq!(clusters.len(), 2);
    let mut sets: Vec<Vec<u32>> = clusters
        .iter()
        .map(|c| {
            let mut m: Vec<u32> = c.members.iter().map(|m| m.func).collect();
            m.sort();
            m
        })
        .collect();
    sets.sort();
    assert_eq!(sets, vec![vec![0, 1, 4], vec![2, 3]]);
}

#[test]
fn clusters_rank_members_and_order_by_deletable_lines() {
    let functions = vec![
        unit(0, 1, (0, 10), 5, vec![1, 2]),
        unit(1, 1, (0, 10), 6, vec![1, 2]),
        unit(2, 1, (0, 10), 20, vec![3, 4]),
        unit(3, 9, (50, 90), 20, vec![3, 4]),
        unit(3, 1, (0, 40), 20, vec![3, 4]),
    ];
    let pairs = vec![Pair { a: 0, b: 1 }, Pair { a: 2, b: 3 }, Pair { a: 3, b: 4 }];
    let clusters = build_clusters(&functions, &pairs);
    assert_eq!(clusters.len(), 2);
    // The three 20-line functions delete 40 lines, the other pair 5.
    assert_eq!(clusters[0].deletable_lines, 40);
    assert_eq!(clusters[1].deletable_lines, 5);
    // A tie on lines goes to the lower file, then the earlier line.
    let order: Vec<u32> = clusters[0].members.iter().map(|m| m.func).collect();
    assert_eq!(order, vec![2, 4, 3]);
    assert_eq!(clusters[1].members[0].func, 1);
    // The representative scores one against itself: 1 of 1.
    assert_eq!(clusters[0].members[0].similarity.shared, 1);
    assert_eq!(clusters[0].members[0].similarity.union, 1);
    assert_eq!(clusters[0].members[1].similarity.shared, 2);
    assert_eq!(clusters[0].members[1].similarity.union, 2);
    assert!(!clusters[0].test_only);
}

#[test]
fn similarity_of_a_set_with_itself_is_one() {
    let a = unit(0, 1, (0, 1), 1, vec![3, 8, 21, 40]);
    let s = similarity(&a, &a);
    assert_eq!((s.shared, s.union), (4, 4));
    let b = unit(1, 1, (0, 1), 1, vec![8, 9, 40]);
    let s = similarity(&a, &b);
    assert_eq!((s.shared, s.union), (2, 5));
    // Symmetric, and never more shared than in the union.
    let t = similarity(&b, &a);
    assert_eq!((t.shared, t.union), (2, 5));
    assert!(s.shared <= s.union);
}

#[test]
fn a_shared_run_shares_a_fingerprint() {
    let run: Vec<u16> = (100..100 + (KGRAM + WINDOW - 1) as u16).collect();
    let mut a: Vec<u16> = vec![1, 2, 3];
    a.extend(&run);
    a.extend([7, 7, 7, 7]);
    let mut b: Vec<u16> = vec![9; 25];
    b.extend(&run);
    let fa = winnow(&a, KGRAM, WINDOW);
    let fb = winnow(&b, KGRAM, WINDOW);
    assert!(fa.iter().any(|x| fb.contains(x)));
    assert!(fa.windows(2).all(|w| w[0] < w[1]));
    assert!(winnow(&run[..KGRAM - 1], KGRAM, WINDOW).is_empty());
}

fn leaf(id: usize, kind: &str, kind_id: u16, bytes: (usize, usize), row: usize) -> NodeInfo {
    NodeInfo {
        id,
        kind: kind.as_bytes().to_vec(),
        kind_id,
        named: true,
        field: None,
        depth: 1,
        start_byte: bytes.0,
        end_byte: bytes.1,
        start_row: row,
        end_row: row,
    }
}

#[test]
fn normalization_folds_literals_and_drops_comments() {
    // block { "a" "b" x // note \n 1 2 ; }
    let src = b"\"a\" \"b\" x // note\n1 2 ;";
    let mut infos = vec![NodeInfo {
        id: 0,
        kind: b"block".to_vec(),
        kind_id: 1,
        named: true,
        field: None,
        depth: 0,
        start_byte: 0,
        end_byte: src.len(),
        start_row: 0,
        end_row: 1,
    }];
    infos.push(leaf(1, "string", 2, (0, 3), 0));
    infos.push(leaf(2, "string", 2, (4, 7), 0));
    infos.push(leaf(3, "identifier", 3, (8, 9), 0));
    infos.push(leaf(4, "comment", 4, (10, 17), 0));
    infos.push(leaf(5, "number", 5, (18, 19), 1));
    infos.push(leaf(6, "number", 5, (20, 21), 1));
    infos.push(leaf(7, ";", 6, (22, 23), 1));
    let t = build_tree(&infos).unwrap();
    let n = normalize(&t, 0, src);
    assert_eq!(n.codes, vec![STR, ID, NUM, 6]);
    assert_eq!(n.sig_lines, 2);
    assert_eq!(significant_lines(&t, 0, src), 2);
}

#[test]
fn renamed_python_functions_fingerprint_alike() {
    let src = "def total(items, rate):\n    s = 0\n    for it in items:\n        s += it * rate + 3\n    return s\n\n\ndef summe(xs, r):\n    acc = 0\n    for x in xs:\n        acc += x * r + 7\n    return acc\n";
    let fa = analyze_source(0, Lang::Python, src, 5, false).unwrap();
    assert_eq!(fa.functions.len(), 2);
    assert_eq!(fa.functions[0].name, "total");
    assert_eq!(fa.functions[1].name, "summe");
    assert_eq!(fa.functions[0].fingerprints, fa.functions[1].fingerprints);
    assert_eq!(fa.functions[1].start_line, 8);
    assert_eq!(fa.total_lines, 12);
}

#[test]
fn units_sit_inside_their_file() {
    let src = "fn first(a: i32) -> i32 {\n    let b = a * 2 + 1;\n    b - 3\n}\n\nfn second(x: i32) -> i32 {\n    let y = x * 2 + 1;\n    y - 3\n}\n";
    let fa = analyze_source(7, Lang::Rust, src, 5, false).unwrap();
    assert_eq!(fa.functions.len(), 2);
    for u in &fa.functions {
        assert_eq!(u.file, 7);
        assert_eq!(u.lang, Lang::Rust);
        assert!(1 <= u.start_line && u.start_line <= u.end_line);
        assert!(u.start_byte <= u.end_byte && u.end_byte as usize <= src.len());
        assert!(!u.fingerprints.is_empty());
    }
    assert_eq!((fa.functions[0].start_line, fa.functions[0].end_line), (1, 4));
    assert_eq!((fa.functions[1].start_line, fa.functions[1].end_line), (6, 9));
    assert_eq!(fa.functions[1].end_byte as usize, src.len() - 1);
    // the body's tokens start on four distinct lines: `{`, two statements, `}`
    assert_eq!(fa.functions[0].sig_lines, 4);
}

#[test]
fn marking_a_file_as_test_only_changes_test_flags() {
    let src = "fn live(a: i32) -> i32 {\n    let b = a * 2 + 1;\n    b - 3\n}\n\n#[cfg(test)]\nmod tests {\n    fn helper(x: i32) -> i32 {\n        let y = x * 2 + 1;\n        y - 3\n    }\n}\n";
    let plain = analyze_source(1, Lang::Rust, src, 5, false).unwrap();
    let marked = analyze_source(1, Lang::Rust, src, 5, true).unwrap();
    assert_eq!(plain.functions.len(), 2);
    assert_eq!(marked.functions.len(), 2);
    assert!(!plain.functions[0].is_test);
    assert!(plain.functions[1].is_test);
    for (p, m) in plain.functions.iter().zip(&marked.functions) {
        assert!(m.is_test);
        assert_eq!((p.name.as_str(), p.start_byte, p.end_byte), (m.name.as_str(), m.start_byte, m.end_byte));
        assert_eq!((p.start_line, p.end_line, p.sig_lines), (m.start_line, m.end_line, m.sig_lines));
        assert_eq!(p.fingerprints, m.fingerprints);
    }
    assert_eq!((plain.sig_lines, plain.total_lines), (marked.sig_lines, marked.total_lines));
}
