use readable_hash::readable_hash;

#[test]
fn hashes_consistently() {
    let expected = "ungtoattmeertant dipresecorvisuch osfrom usellremight itthasiss upfeprojthem uthver off abljahim iz";
    assert_eq!(readable_hash("hello"), expected);
}

#[test]
fn empty_input_still_hashes() {
    // SHA-256 of the empty string is a fixed 32-byte digest, so the rendering
    // is non-empty and stable.
    let a = readable_hash("");
    let b = readable_hash("");
    assert_eq!(a, b);
    assert!(!a.is_empty());
}

#[test]
fn different_inputs_differ() {
    assert_ne!(readable_hash("hello"), readable_hash("world"));
}
