use prefix_tree::hash_bytes;

fn hex(hash: &prefix_tree::Hash) -> String {
    let mut out = String::new();
    for byte in hash.iter() {
        out.push_str(&format!("{:02x}", byte));
    }
    out
}

#[test]
fn digest_of_nothing() {
    assert_eq!(
        hex(&hash_bytes(b"")),
        "c5d2460186f7233c927e7db2dcc703c0e500b653ca82273b7bfad8045d85a470"
    );
}

#[test]
fn digest_of_abc() {
    assert_eq!(
        hex(&hash_bytes(b"abc")),
        "4e03657aea45a94fc7d47ba826c8d667c0d1e6e33a64a036ec44f58fa12d6c45"
    );
}

#[test]
fn digest_depends_on_the_data() {
    assert_ne!(hash_bytes(b"foo"), hash_bytes(b"bar"));
    assert_eq!(hash_bytes(b"foo"), hash_bytes(b"foo"));
    let zeros = [0u8; 32];
    assert_ne!(hash_bytes(&zeros).to_vec(), zeros.to_vec());
}
