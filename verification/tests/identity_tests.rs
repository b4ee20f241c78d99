use grain_ws::identity::{
    decode_web_token, identity_put_key, read_sturdyref_symlink, truncated_text_id,
};

#[test]
fn identity_key_is_truncated_hex() {
    let id = [0xabu8; 32];
    let key = identity_put_key(&id).unwrap();
    assert_eq!(key, "ab".repeat(16));
    assert_eq!(key.len(), 32);
}

#[test]
fn identity_key_rejects_wrong_length() {
    assert!(identity_put_key(&[0u8; 16]).is_err());
    assert!(identity_put_key(&[]).is_err());
}

#[test]
fn text_id_is_truncated_to_half() {
    let text = "0123456789abcdef".repeat(4);
    assert_eq!(
        truncated_text_id(&text).unwrap(),
        "0123456789abcdef0123456789abcdef"
    );
    assert!(truncated_text_id("short").is_err());
}

#[test]
fn web_token_decodes_base64() {
    assert_eq!(decode_web_token("aGVsbG8=").unwrap(), b"hello".to_vec());
    // the web-safe alphabet maps '-' and '_' rather than '+' and '/'
    assert_eq!(decode_web_token("_-8=").unwrap(), vec![0xff, 0xef]);
    assert!(decode_web_token("!!!").is_err());
}

#[test]
fn sturdyref_symlink_percent_decoding() {
    assert_eq!(read_sturdyref_symlink("foo%20bar"), b"foo bar".to_vec());
    assert_eq!(read_sturdyref_symlink("plain"), b"plain".to_vec());
    // a percent sign without hex digits stands for itself
    assert_eq!(read_sturdyref_symlink("50%zz"), b"50%zz".to_vec());
}
