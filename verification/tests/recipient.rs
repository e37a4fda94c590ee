use base64::Engine;
use sha2::Digest;
use git_sshripped::models::{RecipientKey, RecipientSource};
use git_sshripped::recipient::{
    count_removed, github_keys_url, recipient_file, recipient_from_public_key,
    recipient_store_dir, recipients_from_github_keys, remove_recipient_by_fingerprint,
    remove_recipients_by_fingerprints, sort_recipients, wrap_repo_key_for_all_recipients,
    wrap_repo_key_for_recipient, wrapped_key_file, wrapped_store_dir, KeyLineError, WrapError,
};

const ALICE: &str =
    "ssh-ed25519 AAAAC3NzaC1lZDI1NTE5AAAAIMM6UBv8vstY1ASHUSBRv/fL9rj2pZn/w3V7l825uk5W alice@example";
const ALICE_FINGERPRINT: &str = "PrdTQwzAUaKGVVuPXAgtzzq7nKaYM-tzt7WZ9SXWAMs";

fn recipient(fingerprint: &str, line: &str) -> RecipientKey {
    RecipientKey {
        fingerprint: fingerprint.to_string(),
        key_type: "ssh-ed25519".to_string(),
        public_key_line: line.to_string(),
        source: RecipientSource::LocalFile,
    }
}

#[test]
fn store_directories() {
    assert_eq!(recipient_store_dir("/repo"), "/repo/.git-sshripped/recipients");
    assert_eq!(wrapped_store_dir("/repo"), "/repo/.git-sshripped/keys");
    assert_eq!(recipient_store_dir("/repo/"), "/repo/.git-sshripped/recipients");
    assert_eq!(recipient_store_dir(""), ".git-sshripped/recipients");
    assert_eq!(recipient_file("/r", "abc"), "/r/.git-sshripped/recipients/abc.toml");
    assert_eq!(wrapped_key_file("/r", "abc"), "/r/.git-sshripped/keys/abc.age");
}

#[test]
fn fingerprint_of_a_real_key() {
    let r = recipient_from_public_key(ALICE, RecipientSource::LocalFile).unwrap();
    assert_eq!(r.fingerprint, ALICE_FINGERPRINT);
    assert_eq!(r.key_type, "ssh-ed25519");
    assert_eq!(r.public_key_line, ALICE);
    assert_eq!(r.source, RecipientSource::LocalFile);
}

#[test]
fn fingerprint_matches_sha256_then_base64() {
    let r = recipient_from_public_key("ssh-rsa AAAAB3NzaC1yc2EAAAADAQABAAABAQ", RecipientSource::LocalFile)
        .unwrap();
    let digest = sha2::Sha256::digest(b"ssh-rsa:AAAAB3NzaC1yc2EAAAADAQABAAABAQ");
    let expected = base64::engine::general_purpose::URL_SAFE_NO_PAD.encode(digest);
    assert_eq!(r.fingerprint, expected);
    assert_eq!(r.fingerprint, "4rhNMIQ25w6b0s0ul1lCKuyFZkmD10zdXWcuup_ml40");
    assert_eq!(r.fingerprint.len(), 43);
}

#[test]
fn key_line_is_trimmed_and_comment_ignored() {
    let a = recipient_from_public_key("  ssh-ed25519 AAAA first\n", RecipientSource::LocalFile).unwrap();
    let b = recipient_from_public_key("ssh-ed25519\tAAAA   second comment", RecipientSource::LocalFile)
        .unwrap();
    assert_eq!(a.fingerprint, "LaNu6Ia-FSYG0w_8nNCXiep2shwzmMhwW1qs4FsOcaY");
    assert_eq!(a.fingerprint, b.fingerprint);
    assert_eq!(a.public_key_line, "ssh-ed25519 AAAA first");
}

#[test]
fn key_line_errors() {
    assert_eq!(
        recipient_from_public_key("   \n", RecipientSource::LocalFile),
        Err(KeyLineError::EmptyLine)
    );
    assert_eq!(
        recipient_from_public_key("ssh-ed25519", RecipientSource::LocalFile),
        Err(KeyLineError::MissingKeyMaterial)
    );
    assert_eq!(
        recipient_from_public_key("ecdsa-sha2-nistp256 AAAA", RecipientSource::LocalFile),
        Err(KeyLineError::UnsupportedKeyType { key_type: "ecdsa-sha2-nistp256".to_string() })
    );
    assert_eq!(
        recipient_from_public_key("ecdsa-sha2-nistp256", RecipientSource::LocalFile),
        Err(KeyLineError::MissingKeyMaterial)
    );
}

#[test]
fn recipients_sorted_by_fingerprint() {
    let v = vec![
        recipient("b", "1"),
        recipient("a", "2"),
        recipient("c", "3"),
        recipient("a", "4"),
        recipient("B", "5"),
    ];
    let s = sort_recipients(v);
    let order: Vec<(&str, &str)> =
        s.iter().map(|r| (r.fingerprint.as_str(), r.public_key_line.as_str())).collect();
    assert_eq!(order, vec![("B", "5"), ("a", "2"), ("a", "4"), ("b", "1"), ("c", "3")]);
    assert!(sort_recipients(Vec::new()).is_empty());
}

#[test]
fn github_url() {
    assert_eq!(github_keys_url("octocat"), "https://github.com/octocat.keys");
}

#[test]
fn github_keys_skip_blank_lines() {
    let text = format!("{ALICE}\n\n   \nssh-rsa AAAAB3NzaC1yc2EAAAADAQABAAABAQ\r\n");
    let url = "https://github.com/alice.keys";
    let import = recipients_from_github_keys(&text, url, Some("alice"));
    assert_eq!(import.failure, None);
    let v = import.recipients;
    assert_eq!(v.len(), 2);
    assert_eq!(v[0].fingerprint, ALICE_FINGERPRINT);
    assert_eq!(v[1].fingerprint, "4rhNMIQ25w6b0s0ul1lCKuyFZkmD10zdXWcuup_ml40");
    assert_eq!(
        v[1].source,
        RecipientSource::GithubKeys { url: url.to_string(), username: Some("alice".to_string()) }
    );
    let none = recipients_from_github_keys("", url, None);
    assert!(none.recipients.is_empty());
    assert_eq!(none.failure, None);
}

#[test]
fn github_keys_stop_at_bad_line() {
    let text = format!("{ALICE}\nssh-dss AAAA\nssh-ed25519 AAAA\n");
    let import = recipients_from_github_keys(&text, "u", None);
    assert_eq!(import.recipients.len(), 1);
    assert_eq!(import.recipients[0].fingerprint, ALICE_FINGERPRINT);
    let e = import.failure.unwrap();
    assert_eq!(e.line, "ssh-dss AAAA");
    assert_eq!(e.error, KeyLineError::UnsupportedKeyType { key_type: "ssh-dss".to_string() });
}

#[test]
fn removal_targets_and_count() {
    let t = remove_recipient_by_fingerprint("/r", "fp");
    assert_eq!(t.recipient_file, "/r/.git-sshripped/recipients/fp.toml");
    assert_eq!(t.wrapped_file, "/r/.git-sshripped/keys/fp.age");
    let all = remove_recipients_by_fingerprints("/r", &["a".to_string(), "b".to_string()]);
    assert_eq!(all.len(), 2);
    assert_eq!(all[1].wrapped_file, "/r/.git-sshripped/keys/b.age");
    assert_eq!(count_removed(&[true, false, true, true]), 3);
    assert_eq!(count_removed(&[]), 0);
}

#[test]
fn wrap_for_valid_recipient() {
    let r = recipient(ALICE_FINGERPRINT, ALICE);
    let w = wrap_repo_key_for_recipient("/r", &r, &[7u8; 32]).unwrap();
    assert_eq!(w.file, format!("/r/.git-sshripped/keys/{ALICE_FINGERPRINT}.age"));
    assert!(w.wrapped.starts_with(b"age-encryption.org/v1\n"));
    assert!(w.wrapped.len() > 32);
    let longer = wrap_repo_key_for_recipient("/r", &r, &[7u8; 64]).unwrap();
    assert!(longer.wrapped.starts_with(b"age-encryption.org/v1\n"));
    assert!(longer.wrapped.len() > 64 + 32);
}

#[test]
fn wrap_rejects_invalid_key() {
    let r = recipient("bad", "ssh-ed25519 not-base64!");
    assert_eq!(
        wrap_repo_key_for_recipient("/r", &r, b"key"),
        Err(WrapError::InvalidPublicKey { fingerprint: "bad".to_string() })
    );
}

#[test]
fn wrap_all_recipients() {
    let empty = wrap_repo_key_for_all_recipients("/r", &[], b"k");
    assert!(empty.wrapped.is_empty());
    assert_eq!(empty.failure, Some(WrapError::NoRecipients));
    let good = recipient(ALICE_FINGERPRINT, ALICE);
    let bad = recipient("bad", "ssh-ed25519 AAAA");
    let ok = wrap_repo_key_for_all_recipients("/r", &[good.clone(), good.clone()], b"k");
    assert_eq!(ok.failure, None);
    assert_eq!(ok.wrapped.len(), 2);
    let partial = wrap_repo_key_for_all_recipients("/r", &[good.clone(), bad, good], b"k");
    assert_eq!(partial.wrapped.len(), 1);
    assert_eq!(partial.wrapped[0].file, format!("/r/.git-sshripped/keys/{ALICE_FINGERPRINT}.age"));
    assert_eq!(partial.failure, Some(WrapError::InvalidPublicKey { fingerprint: "bad".to_string() }));
}
