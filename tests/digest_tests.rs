use dup_finder::digest::{digest_of_chunks, ContentHasher, FileDigest};

fn hex(d: &FileDigest) -> String {
    String::from_utf8(d.to_hex()).unwrap()
}

#[test]
fn md5_of_empty_stream() {
    let h = ContentHasher::new();
    assert_eq!(hex(&h.finish()), "d41d8cd98f00b204e9800998ecf8427e");
}

#[test]
fn md5_of_abc() {
    let mut h = ContentHasher::new();
    h.absorb(b"abc");
    let d = h.finish();
    assert_eq!(d.as_bytes().len(), 16);
    assert_eq!(hex(&d), "900150983cd24fb0d6963f7d28e17f72");
}

#[test]
fn chunking_does_not_change_digest() {
    let whole = digest_of_chunks(&vec![b"hello world".to_vec()]);
    let split = digest_of_chunks(&vec![b"hel".to_vec(), Vec::new(), b"lo wor".to_vec(), b"ld".to_vec()]);
    assert!(whole.same_as(&split));
    assert_eq!(hex(&whole), "5eb63bbbe01eeed093cb22bb8f5acdc3");
}

#[test]
fn different_content_different_digest() {
    let a = digest_of_chunks(&vec![vec![1u8; 2048]]);
    let b = digest_of_chunks(&vec![vec![2u8; 2048]]);
    assert!(!a.same_as(&b));
    assert!(a.same_as(&a.copy()));
}

#[test]
fn hex_rendering_is_lowercase_two_digits_per_byte() {
    let d = FileDigest { bytes: vec![0x00, 0x0f, 0xa0, 0xff] };
    assert_eq!(hex(&d), "000fa0ff");
}

#[test]
fn digests_of_unequal_length_differ() {
    let a = FileDigest { bytes: vec![1, 2] };
    let b = FileDigest { bytes: vec![1, 2, 3] };
    assert!(!a.same_as(&b));
}
