//! The decisions of the Git clean, smudge and textconv (diff) filters: which
//! content passes through unchanged, which is encrypted or decrypted with the
//! repository key, and when a locked repository must refuse.

use vstd::prelude::*;
use crate::models::EncryptionAlgorithm;

verus! {

/// The four-byte magic `GSC1` that starts every encrypted blob.
pub open spec fn encrypted_magic() -> Seq<u8> {
    seq![0x47u8, 0x53u8, 0x43u8, 0x31u8]
}

/// Whether content is in the encrypted format (starts with the magic).
pub open spec fn is_encrypted_content(content: Seq<u8>) -> bool {
    content.len() >= 4 && content.take(4) == encrypted_magic()
}

/// Whether content starts with the encrypted-format magic `GSC1`.
pub fn is_encrypted(content: &[u8]) -> (r: bool)
    ensures
        r == is_encrypted_content(content@),
{
    if content.len() < 4 {
        return false;
    }
    let r = content[0] == 0x47 && content[1] == 0x53 && content[2] == 0x43 && content[3] == 0x31;
    assert(r ==> content@.take(4) =~= encrypted_magic());
    assert(content@.take(4) == encrypted_magic() ==> content@.take(4)[0] == 0x47u8 && content@.take(
        4,
    )[1] == 0x53u8 && content@.take(4)[2] == 0x43u8 && content@.take(4)[3] == 0x31u8);
    r
}

/// What a filter does with the content it was handed.
#[derive(Clone, Copy, Debug, PartialEq, Eq, Structural)]
pub enum FilterStep {
    /// Emit the content unchanged.
    PassThrough,
    /// Encrypt the content with the repository key and this algorithm.
    Encrypt(EncryptionAlgorithm),
    /// Decrypt the content with the repository key.
    Decrypt,
}

/// Why a filter refuses to run while the repository is locked.
#[derive(Clone, Debug, PartialEq, Eq)]
pub enum FilterError {
    /// Plaintext of a protected file cannot be encrypted without the key.
    LockedPlaintext { path: String },
    /// Ciphertext cannot be shown as text without the key.
    LockedCiphertext { path: String },
}

/// The clean filter (staging): encrypted content passes through, plaintext
/// is encrypted with the key, and plaintext in a locked repository (no key)
/// is refused.
pub fn clean(
    algorithm: EncryptionAlgorithm,
    repo_key: Option<&[u8]>,
    path: &str,
    content: &[u8],
) -> (r: Result<FilterStep, FilterError>)
    ensures
        is_encrypted_content(content@) ==> r == Ok::<FilterStep, FilterError>(
            FilterStep::PassThrough,
        ),
        !is_encrypted_content(content@) && repo_key is Some ==> r == Ok::<FilterStep, FilterError>(
            FilterStep::Encrypt(algorithm),
        ),
        !is_encrypted_content(content@) && repo_key is None ==> (r matches Err(
            FilterError::LockedPlaintext { path: p },
        ) && p@ == path@),
{
    if is_encrypted(content) {
        return Ok(FilterStep::PassThrough);
    }
    match repo_key {
        Some(_) => Ok(FilterStep::Encrypt(algorithm)),
        None => Err(FilterError::LockedPlaintext { path: String::from_str(path) }),
    }
}

/// The smudge filter (checkout): ciphertext is decrypted when the key is
/// available; plaintext, and ciphertext in a locked repository, pass
/// through unchanged.
pub fn smudge(repo_key: Option<&[u8]>, content: &[u8]) -> (r: FilterStep)
    ensures
        r == (if is_encrypted_content(content@) && repo_key is Some {
            FilterStep::Decrypt
        } else {
            FilterStep::PassThrough
        }),
{
    if !is_encrypted(content) {
        return FilterStep::PassThrough;
    }
    match repo_key {
        Some(_) => FilterStep::Decrypt,
        None => FilterStep::PassThrough,
    }
}

/// The textconv filter (diff display): plaintext passes through, ciphertext
/// is decrypted with the key, and ciphertext in a locked repository is an
/// error.
pub fn diff(repo_key: Option<&[u8]>, path: &str, content: &[u8]) -> (r: Result<
    FilterStep,
    FilterError,
>)
    ensures
        !is_encrypted_content(content@) ==> r == Ok::<FilterStep, FilterError>(
            FilterStep::PassThrough,
        ),
        is_encrypted_content(content@) && repo_key is Some ==> r == Ok::<FilterStep, FilterError>(
            FilterStep::Decrypt,
        ),
        is_encrypted_content(content@) && repo_key is None ==> (r matches Err(
            FilterError::LockedCiphertext { path: p },
        ) && p@ == path@),
{
    if !is_encrypted(content) {
        return Ok(FilterStep::PassThrough);
    }
    match repo_key {
        Some(_) => Ok(FilterStep::Decrypt),
        None => Err(FilterError::LockedCiphertext { path: String::from_str(path) }),
    }
}

} // verus!
