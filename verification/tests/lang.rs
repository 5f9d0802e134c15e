//! Languages: every function query compiles against its grammar, and every
//! grammar speaks an ABI that tree-sitter supports.

use dupehound::lang::ALL;

#[test]
fn queries_compile_for_every_language() {
    for lang in ALL {
        assert!(lang.query().is_some(), "{} query does not compile", lang.name());
    }
}

#[test]
fn abi_in_supported_range() {
    for lang in ALL {
        let v = lang.language().abi_version();
        assert!(
            (tree_sitter::MIN_COMPATIBLE_LANGUAGE_VERSION..=tree_sitter::LANGUAGE_VERSION)
                .contains(&v),
            "{} grammar ABI {v} outside supported range",
            lang.name()
        );
    }
}
