//! Clustering: pairs merge into groups with the largest member first, and
//! groups nested inside another group are dropped.

use dupehound::cluster::build_clusters;
use dupehound::extract::FunctionUnit;
use dupehound::graph::Pair;
use dupehound::lang::Lang;

fn unit(
    file: u32,
    lines: (u32, u32),
    bytes: (u32, u32),
    sig: u32,
    fps: Vec<u64>,
) -> FunctionUnit {
    FunctionUnit {
        file,
        lang: Lang::Typescript,
        name: "f".into(),
        start_line: lines.0,
        end_line: lines.1,
        start_byte: bytes.0,
        end_byte: bytes.1,
        sig_lines: sig,
        fingerprints: fps,
        is_test: false,
        is_trait_impl_method: false,
    }
}

#[test]
fn pairs_merge_into_one_cluster_with_largest_as_rep() {
    let functions = vec![
        unit(0, (1, 10), (0, 100), 9, vec![1, 2, 3]),
        unit(1, (1, 12), (0, 120), 11, vec![1, 2, 3]),
        unit(2, (1, 10), (0, 100), 9, vec![1, 2, 3]),
    ];
    let pairs = vec![Pair { a: 0, b: 1 }, Pair { a: 1, b: 2 }];
    let clusters = build_clusters(&functions, &pairs);
    assert_eq!(clusters.len(), 1);
    assert_eq!(clusters[0].members.len(), 3);
    assert_eq!(clusters[0].members[0].func, 1); // largest is rep
    assert_eq!(clusters[0].deletable_lines, 18);
}

#[test]
fn nested_cluster_is_suppressed() {
    // Outer functions 0 and 1 duplicate each other; inner functions
    // 2-in-0 and 3-in-1 also "duplicate" — but only because their
    // parents do.
    let functions = vec![
        unit(0, (1, 30), (0, 900), 28, vec![1, 2, 3, 4]),
        unit(1, (1, 30), (0, 900), 28, vec![1, 2, 3, 4]),
        unit(0, (5, 12), (100, 400), 7, vec![2, 3]),
        unit(1, (5, 12), (100, 400), 7, vec![2, 3]),
    ];
    let pairs = vec![Pair { a: 0, b: 1 }, Pair { a: 2, b: 3 }];
    let clusters = build_clusters(&functions, &pairs);
    assert_eq!(clusters.len(), 1);
    assert_eq!(clusters[0].members.len(), 2);
    assert_eq!(clusters[0].deletable_lines, 28);
}
