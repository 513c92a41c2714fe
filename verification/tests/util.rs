use odyssey_core::util::{generate_nonce, sha256_digest};

#[test]
fn test() {
    let n1 = generate_nonce();
    let n2 = generate_nonce();
    assert!(n1 != n2);
}

#[test]
fn digest_transforms_its_input() {
    // a digest differs from the bytes fed in, is deterministic, and
    // separates different inputs
    let data = [0u8; 32];
    let d = sha256_digest(&data);
    assert_ne!(d.0, data);
    let d2 = sha256_digest(&data);
    assert!(d.same(&d2));
    let other = sha256_digest(&[1u8; 32]);
    assert!(!d.same(&other));
}

#[test]
fn digest_of_empty_input() {
    let d = sha256_digest(&[]);
    assert_eq!(
        d.0,
        [
            0xe3, 0xb0, 0xc4, 0x42, 0x98, 0xfc, 0x1c, 0x14, 0x9a, 0xfb, 0xf4, 0xc8, 0x99, 0x6f,
            0xb9, 0x24, 0x27, 0xae, 0x41, 0xe4, 0x64, 0x9b, 0x93, 0x4c, 0xa4, 0x95, 0x99, 0x1b,
            0x78, 0x52, 0xb8, 0x55,
        ]
    );
}
