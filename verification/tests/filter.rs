use git_sshripped::filter::{clean, diff, is_encrypted, smudge, FilterError, FilterStep};
use git_sshripped::models::EncryptionAlgorithm;

const CIPHER: &[u8] = b"GSC1\x01\x02payload";

#[test]
fn encrypted_content_is_recognised_by_magic() {
    assert!(is_encrypted(CIPHER));
    assert!(is_encrypted(b"GSC1"));
    assert!(!is_encrypted(b"GSC"));
    assert!(!is_encrypted(b"gsc1 plain"));
    assert!(!is_encrypted(b""));
}

#[test]
fn clean_decisions() {
    let key: &[u8] = &[1, 2, 3];
    assert_eq!(clean(EncryptionAlgorithm::AesSivMovableV1, None, "a", CIPHER), Ok(FilterStep::PassThrough));
    assert_eq!(
        clean(EncryptionAlgorithm::AesSivMovableV1, Some(key), "a", b"plain"),
        Ok(FilterStep::Encrypt(EncryptionAlgorithm::AesSivMovableV1))
    );
    assert_eq!(
        clean(EncryptionAlgorithm::AesSivV1, None, "secret.env", b"plain"),
        Err(FilterError::LockedPlaintext { path: "secret.env".to_string() })
    );
}

#[test]
fn smudge_decisions() {
    let key: &[u8] = &[1];
    assert_eq!(smudge(Some(key), b"plain"), FilterStep::PassThrough);
    assert_eq!(smudge(Some(key), CIPHER), FilterStep::Decrypt);
    assert_eq!(smudge(None, CIPHER), FilterStep::PassThrough);
}

#[test]
fn diff_decisions() {
    let key: &[u8] = &[1];
    assert_eq!(diff(None, "a", b"plain"), Ok(FilterStep::PassThrough));
    assert_eq!(diff(Some(key), "a", CIPHER), Ok(FilterStep::Decrypt));
    assert_eq!(diff(None, "a/b", CIPHER), Err(FilterError::LockedCiphertext { path: "a/b".to_string() }));
}
