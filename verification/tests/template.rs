use silverscript_lang::template::template_hash;

#[test]
fn binds_template_part_boundary() {
    assert_ne!(template_hash(b"a", b"bc"), template_hash(b"ab", b"c"));
}

#[test]
fn template_hash_is_blake2b_of_the_length_prefixed_parts() {
    let mut preimage = Vec::new();
    preimage.extend_from_slice(&[2, 0, 0, 0, 0, 0, 0, 0]);
    preimage.extend_from_slice(b"ab");
    preimage.extend_from_slice(&[1, 0, 0, 0, 0, 0, 0, 0]);
    preimage.extend_from_slice(b"c");
    let expected = blake2b_simd::Params::new().hash_length(32).hash(&preimage);
    assert_eq!(&template_hash(b"ab", b"c")[..], expected.as_bytes());
}

#[test]
fn template_hash_depends_on_both_parts() {
    assert_eq!(template_hash(b"", b""), template_hash(b"", b""));
    assert_ne!(template_hash(b"x", b""), template_hash(b"", b"x"));
    assert_ne!(template_hash(b"x", b"y"), template_hash(b"x", b"z"));
}
