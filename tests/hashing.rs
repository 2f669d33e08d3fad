use oasis::fingerprint::{fingerprint, fingerprint_matches, to_hex};
use oasis::upload::SliceUploadQuery;

#[test]
fn test_hash_data() {
    let content = b"Hello world";
    println!("Content: {:?}", content);

    let data: [u8; 12] = [72, 101, 108, 108, 111, 32, 119, 111, 114, 108, 100, 10];
    println!("Data: {:?}", &data);

    let hash = fingerprint(&data.to_vec());
    println!("hashed: {:?}", &hash);
    assert_eq!(hash, format!("{:?}", md5::compute(&data)));
}

#[test]
fn test_hash_lib() {
    let content = b"Hello world";
    let content_hash = md5::compute(&content);

    assert_eq!(
        format!("{:?}", content_hash),
        "3e25960a79dbc69b674cd4ec67a72c62"
    );
    assert_eq!(fingerprint(&content.to_vec()), "3e25960a79dbc69b674cd4ec67a72c62");
}

#[test]
fn test_validate_hash() {
    let data: Vec<u8> = b"Hello world".iter().cloned().collect();

    let slice = SliceUploadQuery {
        index: 1,
        hash: "3e25960a79dbc69b674cd4ec67a72c62".into(),
    };

    assert!(slice.validate_hash(&data));
}

#[test]
fn validate_hash_rejects_other_bytes_and_upper_case() {
    let data: Vec<u8> = b"Hello world".to_vec();
    let upper = SliceUploadQuery {
        index: 0,
        hash: "3E25960A79DBC69B674CD4EC67A72C62".into(),
    };
    assert!(!upper.validate_hash(&data));
    let other = SliceUploadQuery {
        index: 0,
        hash: "3e25960a79dbc69b674cd4ec67a72c62".into(),
    };
    assert!(!other.validate_hash(&b"Hello world!".to_vec()));
}

#[test]
fn fingerprint_is_deterministic() {
    let a = b"slice bytes".to_vec();
    let b = b"slice bytes".to_vec();
    assert_eq!(fingerprint(&a), fingerprint(&b));
    assert_ne!(fingerprint(&a), fingerprint(&b"slice bytez".to_vec()));
}

#[test]
fn fingerprint_of_empty_input() {
    assert_eq!(fingerprint(&Vec::new()), "d41d8cd98f00b204e9800998ecf8427e");
}

#[test]
fn hex_text_has_two_lower_case_digits_per_byte() {
    assert_eq!(to_hex(&[0x0f, 0xa0, 0x00, 0xff]), "0fa000ff");
    assert_eq!(to_hex(&[]), "");
}

#[test]
fn fingerprint_comparison_is_exact() {
    assert!(fingerprint_matches("abc", "abc"));
    assert!(!fingerprint_matches("abc", "ABC"));
    assert!(!fingerprint_matches("abc", "abcd"));
}
