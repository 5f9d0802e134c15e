//! Normalization: operator codes are stable and stay inside their band.

use dupehound::normalize::{op_code, ID, NUM, OP_BAND, OP_BASE, STR};

#[test]
fn op_code_is_deterministic() {
    assert_eq!(op_code("+"), op_code("+"));
    assert_eq!(op_code("reduce"), op_code("reduce"));
}

#[test]
fn op_code_stays_inside_the_reserved_band_and_off_the_sentinels() {
    for text in [
        "+", "-", "*", "/", "if", "when", "let", "reduce", "filter", "map", "defn",
    ] {
        let code = op_code(text);
        assert!(
            (OP_BASE..OP_BASE + OP_BAND).contains(&code),
            "{text} coded to {code}, outside the reserved band"
        );
        assert_ne!(code, ID);
        assert_ne!(code, STR);
        assert_ne!(code, NUM);
    }
}
