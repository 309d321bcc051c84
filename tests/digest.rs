use dupscan::digest::content_digest;

#[test]
fn digest_of_hello_is_md5_hex() {
    assert_eq!(content_digest(b"hello"), "5d41402abc4b2a76b9719d911017c592");
}

#[test]
fn digest_of_empty_content() {
    assert_eq!(content_digest(b""), "d41d8cd98f00b204e9800998ecf8427e");
}

#[test]
fn digest_is_32_lowercase_hex_digits() {
    let d = content_digest(b"world");
    assert_eq!(d, "7d793037a0760186574b0282f2f435e7");
    assert_eq!(d.len(), 32);
    assert!(d.chars().all(|c| c.is_ascii_digit() || ('a'..='f').contains(&c)));
}

#[test]
fn identical_content_gives_identical_digest() {
    let a = vec![1u8, 2, 3, 255];
    let b = vec![1u8, 2, 3, 255];
    assert_eq!(content_digest(&a), content_digest(&b));
}

#[test]
fn different_content_gives_different_digest() {
    assert_ne!(content_digest(b"hello"), content_digest(b"hellp"));
}
