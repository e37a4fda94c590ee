//! The recipient keyring: SSH public keys, stored one file per fingerprint
//! under `.git-sshripped/recipients/`, each of which gets its own
//! age-wrapped copy of the repository key under `.git-sshripped/keys/`.

use vstd::prelude::*;
use vstd::utf8::encode_utf8;
use base64::Engine;
use sha2::Digest;
use crate::models::{RecipientKey, RecipientSource, RecipientView, SourceView};
use crate::paths::{is_absolute, join, join_path, lemma_join_injective, lemma_join_relative};
use crate::text::{chars_of, concat, lines, lines_of, string_of, trim, trim_chars, words, words_of};

verus! {

/// `<repo>/.git-sshripped/recipients`.
pub open spec fn recipient_store_dir_of(repo_root: Seq<char>) -> Seq<char> {
    join(join(repo_root, ".git-sshripped"@), "recipients"@)
}

/// `<repo>/.git-sshripped/keys`.
pub open spec fn wrapped_store_dir_of(repo_root: Seq<char>) -> Seq<char> {
    join(join(repo_root, ".git-sshripped"@), "keys"@)
}

/// The directory holding one TOML file per recipient.
pub fn recipient_store_dir(repo_root: &str) -> (r: String)
    ensures
        r@ == recipient_store_dir_of(repo_root@),
{
    let base = join_path(repo_root, ".git-sshripped");
    join_path(base.as_str(), "recipients")
}

/// The directory holding one wrapped repository key per recipient.
pub fn wrapped_store_dir(repo_root: &str) -> (r: String)
    ensures
        r@ == wrapped_store_dir_of(repo_root@),
{
    let base = join_path(repo_root, ".git-sshripped");
    join_path(base.as_str(), "keys")
}

/// The recipient file of a fingerprint: `<store>/<fingerprint>.toml`.
pub fn recipient_file(repo_root: &str, fingerprint: &str) -> (r: String)
    ensures
        r@ == join(recipient_store_dir_of(repo_root@), fingerprint@ + ".toml"@),
{
    let dir = recipient_store_dir(repo_root);
    let name = concat(fingerprint, ".toml");
    join_path(dir.as_str(), name.as_str())
}

/// The wrapped-key file of a fingerprint: `<keys>/<fingerprint>.age`.
pub fn wrapped_key_file(repo_root: &str, fingerprint: &str) -> (r: String)
    ensures
        r@ == join(wrapped_store_dir_of(repo_root@), fingerprint@ + ".age"@),
{
    let dir = wrapped_store_dir(repo_root);
    let name = concat(fingerprint, ".age");
    join_path(dir.as_str(), name.as_str())
}

/// The SHA-256 digest of some bytes.
pub uninterp spec fn sha256(data: Seq<u8>) -> Seq<u8>;

/// `sha2::Sha256::digest`: the 32-byte SHA-256 digest of `data`. The
/// contract names the digest and states its length; nothing else about the
/// hash function is stated.
#[verifier::external_body]
fn sha256_digest(data: &[u8]) -> (r: Vec<u8>)
    ensures
        r@ == sha256(data@),
        r@.len() == 32,
{
    sha2::Sha256::digest(data).to_vec()
}

/// A character of the URL-safe base64 alphabet.
pub open spec fn is_base64_url_char(c: char) -> bool {
    ('A' <= c <= 'Z') || ('a' <= c <= 'z') || ('0' <= c <= '9') || c == '-' || c == '_'
}

/// The digit of a 6-bit value in the URL-safe base64 alphabet
/// `A-Z a-z 0-9 - _`.
pub open spec fn base64_url_digit(v: int) -> char {
    if v < 26 {
        (65 + v) as char
    } else if v < 52 {
        (97 + (v - 26)) as char
    } else if v < 62 {
        (48 + (v - 52)) as char
    } else if v == 62 {
        '-'
    } else {
        '_'
    }
}

/// The URL-safe base64 encoding of some bytes, without padding: each group
/// of three bytes gives four digits of six bits each, and a final group of
/// one or two bytes gives two or three digits (its missing bits are zero).
pub open spec fn base64_url_no_pad(data: Seq<u8>) -> Seq<char>
    decreases data.len(),
{
    if data.len() == 0 {
        seq![]
    } else if data.len() == 1 {
        let b0 = data[0] as int;
        seq![base64_url_digit(b0 / 4), base64_url_digit((b0 % 4) * 16)]
    } else if data.len() == 2 {
        let b0 = data[0] as int;
        let b1 = data[1] as int;
        seq![
            base64_url_digit(b0 / 4),
            base64_url_digit((b0 % 4) * 16 + b1 / 16),
            base64_url_digit((b1 % 16) * 4),
        ]
    } else {
        let b0 = data[0] as int;
        let b1 = data[1] as int;
        let b2 = data[2] as int;
        seq![
            base64_url_digit(b0 / 4),
            base64_url_digit((b0 % 4) * 16 + b1 / 16),
            base64_url_digit((b1 % 16) * 4 + b2 / 64),
            base64_url_digit(b2 % 64),
        ] + base64_url_no_pad(data.skip(3))
    }
}

proof fn lemma_base64_url_digit(v: int)
    requires
        0 <= v < 64,
    ensures
        is_base64_url_char(base64_url_digit(v)),
{
}

/// Unpadded URL-safe base64 has `ceil(4n/3)` digits for `n` bytes, all from
/// the URL-safe alphabet.
pub proof fn lemma_base64_url_no_pad(data: Seq<u8>)
    ensures
        base64_url_no_pad(data).len() == (4 * data.len() + 2) / 3,
        forall|i: int|
            0 <= i < base64_url_no_pad(data).len() ==> is_base64_url_char(
                #[trigger] base64_url_no_pad(data)[i],
            ),
    decreases data.len(),
{
    let e = base64_url_no_pad(data);
    if data.len() == 0 {
    } else if data.len() == 1 {
        let b0 = data[0] as int;
        lemma_base64_url_digit(b0 / 4);
        lemma_base64_url_digit((b0 % 4) * 16);
    } else if data.len() == 2 {
        let b0 = data[0] as int;
        let b1 = data[1] as int;
        lemma_base64_url_digit(b0 / 4);
        lemma_base64_url_digit((b0 % 4) * 16 + b1 / 16);
        lemma_base64_url_digit((b1 % 16) * 4);
    } else {
        let b0 = data[0] as int;
        let b1 = data[1] as int;
        let b2 = data[2] as int;
        lemma_base64_url_digit(b0 / 4);
        lemma_base64_url_digit((b0 % 4) * 16 + b1 / 16);
        lemma_base64_url_digit((b1 % 16) * 4 + b2 / 64);
        lemma_base64_url_digit(b2 % 64);
        let rest = base64_url_no_pad(data.skip(3));
        lemma_base64_url_no_pad(data.skip(3));
        let head = seq![
            base64_url_digit(b0 / 4),
            base64_url_digit((b0 % 4) * 16 + b1 / 16),
            base64_url_digit((b1 % 16) * 4 + b2 / 64),
            base64_url_digit(b2 % 64),
        ];
        assert(e == head + rest);
        assert forall|i: int| 0 <= i < e.len() implies is_base64_url_char(#[trigger] e[i]) by {
            if i >= 4 {
                assert(e[i] == rest[i - 4]);
            }
        }
    }
}

/// `base64::engine::general_purpose::URL_SAFE_NO_PAD.encode`: unpadded
/// URL-safe base64 of `data`.
#[verifier::external_body]
fn encode_base64_url(data: &[u8]) -> (r: String)
    requires
        data@.len() <= 0x3fff_ffff,
    ensures
        r@ == base64_url_no_pad(data@),
{
    base64::engine::general_purpose::URL_SAFE_NO_PAD.encode(data)
}

/// The fingerprint of an SSH key: URL-safe unpadded base64 of the SHA-256
/// of `<key type>:<key material>` (UTF-8).
pub open spec fn fingerprint_of(key_type: Seq<char>, key_body: Seq<char>) -> Seq<char> {
    base64_url_no_pad(sha256(encode_utf8(key_type) + seq![0x3au8] + encode_utf8(key_body)))
}

proof fn lemma_encode_utf8_concat(a: Seq<char>, b: Seq<char>)
    ensures
        encode_utf8(a + b) == encode_utf8(a) + encode_utf8(b),
    decreases a.len(),
{
    if a.len() == 0 {
        assert(a + b =~= b);
        assert(encode_utf8(a) + encode_utf8(b) =~= encode_utf8(b));
    } else {
        assert((a + b)[0] == a[0]);
        assert((a + b).drop_first() =~= a.drop_first() + b);
        lemma_encode_utf8_concat(a.drop_first(), b);
        assert(encode_utf8(a + b) =~= encode_utf8(a) + encode_utf8(b));
    }
}

/// The fingerprint hashes the whole key: it is the URL-safe unpadded base64
/// of the SHA-256 of the UTF-8 text `<key type>:<key material>`, whatever
/// the length of the key material.
pub proof fn fingerprint_hashes_whole_key_text(key_type: Seq<char>, key_body: Seq<char>)
    ensures
        fingerprint_of(key_type, key_body) == base64_url_no_pad(
            sha256(encode_utf8(key_type + seq![':'] + key_body)),
        ),
{
    lemma_encode_utf8_concat(key_type + seq![':'], key_body);
    lemma_encode_utf8_concat(key_type, seq![':']);
    assert(seq![':'].drop_first() =~= Seq::<char>::empty());
    assert((':' as u32) == 0x3a);
    assert(seq![':'][0] == ':');
    assert(vstd::utf8::leading_byte_width_1(0x3a) == 0x3a) by (bit_vector);
    let colon = seq![':'];
    assert(vstd::utf8::has_width_1_encoding(0x3a));
    assert(vstd::utf8::encode_scalar(0x3a) == seq![0x3au8]);
    assert(encode_utf8(colon.drop_first()) == Seq::<u8>::empty());
    assert(encode_utf8(colon) == vstd::utf8::encode_scalar(colon[0] as u32) + encode_utf8(
        colon.drop_first(),
    ));
    assert(encode_utf8(colon) =~= seq![0x3au8]);
}

fn extend_bytes(out: &mut Vec<u8>, data: &[u8])
    ensures
        final(out)@ == old(out)@ + data@,
{
    let mut i: usize = 0;
    while i < data.len()
        invariant
            i <= data@.len(),
            out@ == old(out)@ + data@.take(i as int),
        decreases data@.len() - i,
    {
        out.push(data[i]);
        i = i + 1;
        assert(out@ =~= old(out)@ + data@.take(i as int));
    }
    assert(data@.take(data@.len() as int) =~= data@);
}

/// Computes the fingerprint of an SSH key from its type and key material.
pub fn fingerprint_for_key(key_type: &str, key_body: &str) -> (r: String)
    ensures
        r@ == fingerprint_of(key_type@, key_body@),
        r@.len() == 43,
        forall|i: int| 0 <= i < r@.len() ==> is_base64_url_char(#[trigger] r@[i]),
{
    let mut data: Vec<u8> = Vec::new();
    extend_bytes(&mut data, key_type.as_bytes());
    data.push(0x3a);
    extend_bytes(&mut data, key_body.as_bytes());
    assert(data@ =~= encode_utf8(key_type@) + seq![0x3au8] + encode_utf8(key_body@));
    let digest = sha256_digest(data.as_slice());
    proof {
        lemma_base64_url_no_pad(digest@);
    }
    encode_base64_url(digest.as_slice())
}

/// The key types a recipient may have.
pub open spec fn is_supported_key_type(key_type: Seq<char>) -> bool {
    key_type == "ssh-ed25519"@ || key_type == "ssh-rsa"@
}

/// Why a public key line is refused.
#[derive(Clone, Debug, PartialEq, Eq)]
pub enum KeyLineError {
    /// Nothing but whitespace.
    EmptyLine,
    /// A key type without key material after it.
    MissingKeyMaterial,
    /// A key type other than `ssh-ed25519` and `ssh-rsa`.
    UnsupportedKeyType { key_type: String },
}

/// The text of a key line error.
pub enum KeyLineErrorView {
    EmptyLine,
    MissingKeyMaterial,
    UnsupportedKeyType { key_type: Seq<char> },
}

impl View for KeyLineError {
    type V = KeyLineErrorView;

    open spec fn view(&self) -> KeyLineErrorView {
        match self {
            KeyLineError::EmptyLine => KeyLineErrorView::EmptyLine,
            KeyLineError::MissingKeyMaterial => KeyLineErrorView::MissingKeyMaterial,
            KeyLineError::UnsupportedKeyType { key_type } => KeyLineErrorView::UnsupportedKeyType {
                key_type: key_type@,
            },
        }
    }
}

/// The recipient that a public key line (`<type> <material> [comment]`)
/// yields, or why the line is refused.
#[verifier::opaque]
pub open spec fn recipient_for_line(line: Seq<char>, source: SourceView) -> Result<
    RecipientView,
    KeyLineErrorView,
> {
    let trimmed = trim(line);
    let parts = words(trimmed);
    if trimmed.len() == 0 {
        Err(KeyLineErrorView::EmptyLine)
    } else if parts.len() < 2 {
        Err(KeyLineErrorView::MissingKeyMaterial)
    } else if !is_supported_key_type(parts[0]) {
        Err(KeyLineErrorView::UnsupportedKeyType { key_type: parts[0] })
    } else {
        Ok(
            RecipientView {
                fingerprint: fingerprint_of(parts[0], parts[1]),
                key_type: parts[0],
                public_key_line: trimmed,
                source,
            },
        )
    }
}

/// The text of a recipient result.
pub open spec fn recipient_result_view(r: Result<RecipientKey, KeyLineError>) -> Result<
    RecipientView,
    KeyLineErrorView,
> {
    match r {
        Ok(k) => Ok(k@),
        Err(e) => Err(e@),
    }
}

/// Builds the recipient for a public key line: the line is trimmed, its
/// first two whitespace-separated words are the key type and the key
/// material, and the key type must be `ssh-ed25519` or `ssh-rsa`.
pub fn recipient_from_public_key(public_key_line: &str, source: RecipientSource) -> (r: Result<
    RecipientKey,
    KeyLineError,
>)
    ensures
        recipient_result_view(r) == recipient_for_line(public_key_line@, source@),
        r matches Ok(k) ==> k.fingerprint@.len() == 43,
        r matches Ok(k) ==> forall|i: int|
            0 <= i < k.fingerprint@.len() ==> is_base64_url_char(#[trigger] k.fingerprint@[i]),
{
    reveal(recipient_for_line);
    let line = chars_of(public_key_line);
    let trimmed = trim_chars(line.as_slice());
    if trimmed.len() == 0 {
        return Err(KeyLineError::EmptyLine);
    }
    let parts = words_of(trimmed.as_slice());
    if parts.len() < 2 {
        return Err(KeyLineError::MissingKeyMaterial);
    }
    assert(parts@[0]@ =~= parts.deep_view()[0]);
    assert(parts@[1]@ =~= parts.deep_view()[1]);
    let key_type = string_of(parts[0].as_slice());
    let key_body = string_of(parts[1].as_slice());
    let kt = key_type.as_str();
    let ed = chars_of("ssh-ed25519");
    let rsa = chars_of("ssh-rsa");
    if !crate::text::chars_eq(parts[0].as_slice(), ed.as_slice()) && !crate::text::chars_eq(
        parts[0].as_slice(),
        rsa.as_slice(),
    ) {
        return Err(KeyLineError::UnsupportedKeyType { key_type });
    }
    let fingerprint = fingerprint_for_key(kt, key_body.as_str());
    Ok(
        RecipientKey {
            fingerprint,
            key_type,
            public_key_line: string_of(trimmed.as_slice()),
            source,
        },
    )
}

/// Two supported key lines with the same key type and key material get the
/// same fingerprint, whatever their comments, spacing and sources.
pub proof fn fingerprint_ignores_comment_and_spacing(
    line1: Seq<char>,
    line2: Seq<char>,
    source1: SourceView,
    source2: SourceView,
)
    requires
        recipient_for_line(line1, source1) is Ok,
        recipient_for_line(line2, source2) is Ok,
        words(trim(line1))[0] == words(trim(line2))[0],
        words(trim(line1))[1] == words(trim(line2))[1],
    ensures
        recipient_for_line(line1, source1)->Ok_0.fingerprint == recipient_for_line(
            line2,
            source2,
        )->Ok_0.fingerprint,
{
    reveal(recipient_for_line);
}

/// A name made of base64 characters, with an extension, is a relative path.
proof fn lemma_base64_name_relative(fingerprint: Seq<char>, ext: Seq<char>)
    requires
        forall|i: int| 0 <= i < fingerprint.len() ==> is_base64_url_char(#[trigger] fingerprint[i]),
        ext.len() > 0,
        ext[0] == '.',
    ensures
        !is_absolute(fingerprint + ext),
{
    if fingerprint.len() > 0 {
        assert((fingerprint + ext)[0] == fingerprint[0]);
        assert(is_base64_url_char(fingerprint[0]));
    } else {
        assert((fingerprint + ext)[0] == ext[0]);
    }
}

/// Recipients whose fingerprints are base64 text (as every fingerprint the
/// keyring computes is) are stored in distinct files inside the recipient
/// store, one per fingerprint; the same holds of their wrapped keys.
pub proof fn recipient_files_are_distinct(
    repo_root: Seq<char>,
    fingerprint1: Seq<char>,
    fingerprint2: Seq<char>,
)
    requires
        forall|i: int|
            0 <= i < fingerprint1.len() ==> is_base64_url_char(#[trigger] fingerprint1[i]),
        forall|i: int|
            0 <= i < fingerprint2.len() ==> is_base64_url_char(#[trigger] fingerprint2[i]),
    ensures
        (join(recipient_store_dir_of(repo_root), fingerprint1 + ".toml"@) == join(
            recipient_store_dir_of(repo_root),
            fingerprint2 + ".toml"@,
        )) == (fingerprint1 == fingerprint2),
        (join(wrapped_store_dir_of(repo_root), fingerprint1 + ".age"@) == join(
            wrapped_store_dir_of(repo_root),
            fingerprint2 + ".age"@,
        )) == (fingerprint1 == fingerprint2),
        join(recipient_store_dir_of(repo_root), fingerprint1 + ".toml"@).take(
            recipient_store_dir_of(repo_root).len() as int,
        ) == recipient_store_dir_of(repo_root),
        join(wrapped_store_dir_of(repo_root), fingerprint1 + ".age"@).take(
            wrapped_store_dir_of(repo_root).len() as int,
        ) == wrapped_store_dir_of(repo_root),
{
    reveal_strlit(".toml");
    reveal_strlit(".age");
    let t = ".toml"@;
    let a = ".age"@;
    lemma_base64_name_relative(fingerprint1, t);
    lemma_base64_name_relative(fingerprint2, t);
    lemma_base64_name_relative(fingerprint1, a);
    lemma_base64_name_relative(fingerprint2, a);
    lemma_join_injective(recipient_store_dir_of(repo_root), fingerprint1 + t, fingerprint2 + t);
    lemma_join_injective(wrapped_store_dir_of(repo_root), fingerprint1 + a, fingerprint2 + a);
    lemma_join_relative(recipient_store_dir_of(repo_root), fingerprint1 + t);
    lemma_join_relative(wrapped_store_dir_of(repo_root), fingerprint1 + a);
    if fingerprint1 + t == fingerprint2 + t {
        assert(fingerprint1 =~= (fingerprint1 + t).take(fingerprint1.len() as int));
        assert(fingerprint2 =~= (fingerprint2 + t).take(fingerprint2.len() as int));
    }
    if fingerprint1 + a == fingerprint2 + a {
        assert(fingerprint1 =~= (fingerprint1 + a).take(fingerprint1.len() as int));
        assert(fingerprint2 =~= (fingerprint2 + a).take(fingerprint2.len() as int));
    }
}

/// Lexicographic order of character sequences by code point, which is the
/// order of `str` (UTF-8 preserves code point order).
pub open spec fn text_lt(a: Seq<char>, b: Seq<char>) -> bool
    decreases a.len(),
{
    if b.len() == 0 {
        false
    } else if a.len() == 0 {
        true
    } else if a[0] != b[0] {
        (a[0] as u32) < (b[0] as u32)
    } else {
        text_lt(a.drop_first(), b.drop_first())
    }
}

pub proof fn lemma_text_lt_irreflexive(a: Seq<char>)
    ensures
        !text_lt(a, a),
    decreases a.len(),
{
    if a.len() > 0 {
        lemma_text_lt_irreflexive(a.drop_first());
    }
}

pub proof fn lemma_text_lt_transitive(a: Seq<char>, b: Seq<char>, c: Seq<char>)
    requires
        text_lt(a, b),
        text_lt(b, c),
    ensures
        text_lt(a, c),
    decreases a.len(),
{
    if a.len() > 0 && b.len() > 0 && c.len() > 0 {
        if a[0] == b[0] && b[0] == c[0] {
            lemma_text_lt_transitive(a.drop_first(), b.drop_first(), c.drop_first());
        }
    }
}

/// `a` is below `b` at position `i`: the two agree on their first `i`
/// characters, and there `a` ends while `b` goes on, or `a` has the smaller
/// code point.
pub open spec fn lex_less_at(a: Seq<char>, b: Seq<char>, i: int) -> bool {
    &&& 0 <= i <= a.len()
    &&& i < b.len()
    &&& a.take(i) == b.take(i)
    &&& (i == a.len() || (a[i] as u32) < (b[i] as u32))
}

proof fn lemma_lex_less_at_step(a: Seq<char>, b: Seq<char>, i: int)
    requires
        a.len() > 0,
        b.len() > 0,
        a[0] == b[0],
        i >= 1,
    ensures
        lex_less_at(a, b, i) == lex_less_at(a.drop_first(), b.drop_first(), i - 1),
{
    let a1 = a.drop_first();
    let b1 = b.drop_first();
    if 1 <= i <= a.len() && i < b.len() {
        if a.take(i) == b.take(i) {
            assert(a1.take(i - 1) =~= a.take(i).drop_first());
            assert(b1.take(i - 1) =~= b.take(i).drop_first());
        }
        if a1.take(i - 1) == b1.take(i - 1) {
            assert(a.take(i) =~= seq![a[0]] + a1.take(i - 1));
            assert(b.take(i) =~= seq![b[0]] + b1.take(i - 1));
        }
        if i < a.len() {
            assert(a[i] == a1[i - 1]);
            assert(b[i] == b1[i - 1]);
        }
    }
}

/// The order of fingerprints is the lexicographic order of their text:
/// `a` comes before `b` exactly when, at the first position where they
/// differ, `a` has the smaller character, or `a` is a proper prefix of `b`.
pub proof fn text_lt_is_lexicographic(a: Seq<char>, b: Seq<char>)
    ensures
        text_lt(a, b) <==> exists|i: int| #[trigger] lex_less_at(a, b, i),
    decreases a.len(),
{
    if b.len() == 0 {
    } else if a.len() == 0 {
        assert(a.take(0) =~= b.take(0));
        assert(lex_less_at(a, b, 0));
    } else if a[0] != b[0] {
        if (a[0] as u32) < (b[0] as u32) {
            assert(a.take(0) =~= b.take(0));
            assert(lex_less_at(a, b, 0));
        }
        if exists|i: int| #[trigger] lex_less_at(a, b, i) {
            let i = choose|i: int| #[trigger] lex_less_at(a, b, i);
            if i >= 1 {
                assert(a.take(i)[0] == b.take(i)[0]);
            }
        }
    } else {
        let a1 = a.drop_first();
        let b1 = b.drop_first();
        text_lt_is_lexicographic(a1, b1);
        if text_lt(a, b) {
            let j = choose|j: int| #[trigger] lex_less_at(a1, b1, j);
            lemma_lex_less_at_step(a, b, j + 1);
            assert(lex_less_at(a, b, j + 1));
        }
        if exists|i: int| #[trigger] lex_less_at(a, b, i) {
            let i = choose|i: int| #[trigger] lex_less_at(a, b, i);
            if i == 0 {
                assert(i != a.len());
            }
            lemma_lex_less_at_step(a, b, i);
            assert(lex_less_at(a1, b1, i - 1));
        }
    }
}

/// `a < b` on text.
pub fn text_less(a: &[char], b: &[char]) -> (r: bool)
    ensures
        r == text_lt(a@, b@),
{
    let mut i: usize = 0;
    assert(a@.skip(0) =~= a@);
    assert(b@.skip(0) =~= b@);
    while i < a.len() && i < b.len() && a[i] == b[i]
        invariant
            i <= a@.len(),
            i <= b@.len(),
            text_lt(a@, b@) == text_lt(a@.skip(i as int), b@.skip(i as int)),
        decreases a@.len() - i,
    {
        assert(a@.skip(i as int).drop_first() =~= a@.skip(i + 1));
        assert(b@.skip(i as int).drop_first() =~= b@.skip(i + 1));
        i = i + 1;
    }
    if i == b.len() {
        false
    } else if i == a.len() {
        true
    } else {
        (a[i] as u32) < (b[i] as u32)
    }
}

/// Whether recipients are in ascending fingerprint order.
pub open spec fn sorted_by_fingerprint(v: Seq<RecipientKey>) -> bool {
    forall|i: int, j: int|
        0 <= i < j < v.len() ==> !text_lt(#[trigger] v[j].fingerprint@, #[trigger] v[i].fingerprint@)
}

/// The recipients of `s` whose fingerprint is `f`, in order.
pub open spec fn with_fingerprint(s: Seq<RecipientKey>, f: Seq<char>) -> Seq<RecipientKey>
    decreases s.len(),
{
    if s.len() == 0 {
        seq![]
    } else {
        (if s[0].fingerprint@ == f {
            seq![s[0]]
        } else {
            Seq::<RecipientKey>::empty()
        }) + with_fingerprint(s.drop_first(), f)
    }
}

proof fn lemma_with_fingerprint_concat(a: Seq<RecipientKey>, b: Seq<RecipientKey>, f: Seq<char>)
    ensures
        with_fingerprint(a + b, f) == with_fingerprint(a, f) + with_fingerprint(b, f),
    decreases a.len(),
{
    if a.len() == 0 {
        assert(a + b =~= b);
        assert(with_fingerprint(a, f) + with_fingerprint(b, f) =~= with_fingerprint(b, f));
    } else {
        assert((a + b).drop_first() =~= a.drop_first() + b);
        assert((a + b)[0] == a[0]);
        lemma_with_fingerprint_concat(a.drop_first(), b, f);
        let h = if a[0].fingerprint@ == f {
            seq![a[0]]
        } else {
            Seq::<RecipientKey>::empty()
        };
        assert(h + (with_fingerprint(a.drop_first(), f) + with_fingerprint(b, f)) =~= (h
            + with_fingerprint(a.drop_first(), f)) + with_fingerprint(b, f));
    }
}

proof fn lemma_with_fingerprint_none(s: Seq<RecipientKey>, f: Seq<char>)
    requires
        forall|i: int| 0 <= i < s.len() ==> (#[trigger] s[i]).fingerprint@ != f,
    ensures
        with_fingerprint(s, f) == Seq::<RecipientKey>::empty(),
    decreases s.len(),
{
    if s.len() > 0 {
        assert(s[0].fingerprint@ != f);
        assert forall|i: int| 0 <= i < s.drop_first().len() implies (#[trigger] s.drop_first()[
            i
        ]).fingerprint@ != f by {
            assert(s.drop_first()[i] == s[i + 1]);
        }
        lemma_with_fingerprint_none(s.drop_first(), f);
        assert(Seq::<RecipientKey>::empty() + Seq::<RecipientKey>::empty() =~= Seq::<
            RecipientKey,
        >::empty());
    }
}

proof fn lemma_with_fingerprint_single(x: RecipientKey, f: Seq<char>)
    ensures
        with_fingerprint(seq![x], f) == (if x.fingerprint@ == f {
            seq![x]
        } else {
            Seq::<RecipientKey>::empty()
        }),
{
    assert(seq![x].drop_first() =~= Seq::<RecipientKey>::empty());
    assert(seq![x][0] == x);
    assert(with_fingerprint(Seq::<RecipientKey>::empty(), f) =~= Seq::<RecipientKey>::empty());
    if x.fingerprint@ == f {
        assert(seq![x] + Seq::<RecipientKey>::empty() =~= seq![x]);
    } else {
        assert(Seq::<RecipientKey>::empty() + Seq::<RecipientKey>::empty() =~= Seq::<
            RecipientKey,
        >::empty());
    }
}

/// Orders recipients by fingerprint, keeping recipients with equal
/// fingerprints in their original order (a stable insertion sort).
pub fn sort_recipients(recipients: Vec<RecipientKey>) -> (r: Vec<RecipientKey>)
    ensures
        r@.to_multiset() == recipients@.to_multiset(),
        sorted_by_fingerprint(r@),
        forall|f: Seq<char>| #[trigger] with_fingerprint(r@, f) == with_fingerprint(recipients@, f),
{
    broadcast use vstd::seq_lib::group_to_multiset_ensures;

    let ghost all = recipients@.to_multiset();
    let ghost orig = recipients@;
    let mut input = recipients;
    let mut out: Vec<RecipientKey> = Vec::new();
    assert(out@.to_multiset() =~= vstd::multiset::Multiset::<RecipientKey>::empty());
    assert forall|f: Seq<char>| #[trigger] with_fingerprint(out@, f) + with_fingerprint(input@, f)
        == with_fingerprint(orig, f) by {
        assert(with_fingerprint(out@, f) =~= Seq::<RecipientKey>::empty());
        assert(with_fingerprint(out@, f) + with_fingerprint(input@, f) =~= with_fingerprint(
            input@,
            f,
        ));
    }
    while input.len() > 0
        invariant
            out@.to_multiset().add(input@.to_multiset()) == all,
            sorted_by_fingerprint(out@),
            forall|f: Seq<char>| #[trigger] with_fingerprint(out@, f) + with_fingerprint(input@, f)
                == with_fingerprint(orig, f),
        decreases input@.len(),
    {
        let ghost before_in = input@;
        let item = input.remove(0);
        assert(before_in.remove(0) == input@);
        proof {
            vstd::seq_lib::to_multiset_remove(before_in, 0);
            before_in.to_multiset_ensures();
        }
        assert(before_in.contains(item));
        let key = chars_of(item.fingerprint.as_str());
        let mut pos: usize = 0;
        while pos < out.len()
            invariant
                pos <= out@.len(),
                key@ == item.fingerprint@,
                forall|q: int| 0 <= q < pos ==> !text_lt(key@, #[trigger] out@[q].fingerprint@),
            ensures
                pos <= out@.len(),
                forall|q: int| 0 <= q < pos ==> !text_lt(key@, #[trigger] out@[q].fingerprint@),
                pos < out@.len() ==> text_lt(key@, out@[pos as int].fingerprint@),
            decreases out@.len() - pos,
        {
            let k = chars_of(out[pos].fingerprint.as_str());
            if text_less(key.as_slice(), k.as_slice()) {
                break;
            }
            pos = pos + 1;
        }
        let ghost before_out = out@;
        proof {
            if pos < out@.len() {
                assert(text_lt(key@, out@[pos as int].fingerprint@));
            }
        }
        out.insert(pos, item);
        proof {
            assert(out@.remove(pos as int) =~= before_out);
            assert(out@[pos as int] == item);
            vstd::seq_lib::to_multiset_remove(out@, pos as int);
            out@.to_multiset_ensures();
            assert(out@.contains(item));
            assert(out@.to_multiset().remove(item) == before_out.to_multiset());
            assert(out@.to_multiset() =~= before_out.to_multiset().insert(item));
            assert(before_in.to_multiset() == input@.to_multiset().insert(item));
            assert(out@.to_multiset().add(input@.to_multiset()) =~= before_out.to_multiset().add(
                before_in.to_multiset(),
            ));
            assert forall|f: Seq<char>| #[trigger] with_fingerprint(out@, f) + with_fingerprint(
                input@,
                f,
            ) == with_fingerprint(orig, f) by {
                let key_f = item.fingerprint@;
                let head = before_out.take(pos as int);
                let tail = before_out.skip(pos as int);
                assert(before_out =~= head + tail);
                assert(out@ =~= head + (seq![item] + tail));
                assert(before_in =~= seq![item] + input@);
                lemma_with_fingerprint_concat(head, tail, f);
                lemma_with_fingerprint_concat(head, seq![item] + tail, f);
                lemma_with_fingerprint_concat(seq![item], tail, f);
                lemma_with_fingerprint_concat(seq![item], input@, f);
                lemma_with_fingerprint_single(item, f);
                assert(with_fingerprint(before_out, f) + with_fingerprint(before_in, f)
                    == with_fingerprint(orig, f));
                if f == key_f {
                    assert forall|q: int| 0 <= q < tail.len() implies (#[trigger] tail[q]).fingerprint@
                        != f by {
                        assert(tail[q] == before_out[pos + q]);
                        if q == 0 {
                            lemma_text_lt_irreflexive(key_f);
                        } else {
                            assert(!text_lt(before_out[pos + q].fingerprint@, before_out[pos as int].fingerprint@));
                        }
                    }
                    lemma_with_fingerprint_none(tail, f);
                    assert(with_fingerprint(out@, f) + with_fingerprint(input@, f) =~= with_fingerprint(
                        before_out,
                        f,
                    ) + with_fingerprint(before_in, f));
                } else {
                    assert(with_fingerprint(out@, f) + with_fingerprint(input@, f) =~= with_fingerprint(
                        before_out,
                        f,
                    ) + with_fingerprint(before_in, f));
                }
            }
            assert forall|i: int, j: int| 0 <= i < j < out@.len() implies !text_lt(
                #[trigger] out@[j].fingerprint@,
                #[trigger] out@[i].fingerprint@,
            ) by {
                if i < pos as int && j == pos as int {
                    assert(out@[i] == before_out[i]);
                } else if i == pos as int && j > pos as int {
                    assert(out@[j] == before_out[j - 1]);
                    let ki = key@;
                    let kj = out@[j].fingerprint@;
                    let kp = before_out[pos as int].fingerprint@;
                    if text_lt(kj, ki) {
                        if j - 1 > pos as int {
                            assert(!text_lt(kj, kp));
                            lemma_text_lt_transitive(kj, ki, kp);
                        } else {
                            lemma_text_lt_transitive(kj, ki, kj);
                            lemma_text_lt_irreflexive(kj);
                        }
                    }
                } else if j < pos as int {
                    assert(out@[i] == before_out[i] && out@[j] == before_out[j]);
                } else if i < pos as int {
                    assert(out@[i] == before_out[i] && out@[j] == before_out[j - 1]);
                } else {
                    assert(out@[i] == before_out[i - 1] && out@[j] == before_out[j - 1]);
                }
            }
        }
    }
    assert(input@.to_multiset() =~= vstd::multiset::Multiset::<RecipientKey>::empty());
    assert(out@.to_multiset().add(input@.to_multiset()) =~= out@.to_multiset());
    assert forall|f: Seq<char>| #[trigger] with_fingerprint(out@, f) == with_fingerprint(orig, f) by {
        assert(with_fingerprint(input@, f) =~= Seq::<RecipientKey>::empty());
        assert(with_fingerprint(out@, f) + with_fingerprint(input@, f) =~= with_fingerprint(out@, f));
    }
    out
}

/// The address of a GitHub user's public keys.
pub fn github_keys_url(username: &str) -> (r: String)
    ensures
        r@ == "https://github.com/"@ + username@ + ".keys"@,
{
    let a = concat("https://github.com/", username);
    concat(a.as_str(), ".keys")
}

/// The lines of `ls` that hold more than whitespace, in order.
pub open spec fn non_blank(ls: Seq<Seq<char>>) -> Seq<Seq<char>>
    decreases ls.len(),
{
    if ls.len() == 0 {
        seq![]
    } else if trim(ls.last()).len() == 0 {
        non_blank(ls.drop_last())
    } else {
        non_blank(ls.drop_last()).push(ls.last())
    }
}

/// The key lines of a `.keys` document: its non-blank lines.
pub open spec fn key_lines(text: Seq<char>) -> Seq<Seq<char>> {
    non_blank(lines(text))
}

/// The key lines are exactly the lines that hold more than whitespace, in
/// order: appending a line adds it to the key lines when its trimmed text is
/// not empty and leaves them as they were when it is.
pub proof fn key_lines_are_the_non_blank_lines(ls: Seq<Seq<char>>, l: Seq<char>)
    ensures
        non_blank(Seq::<Seq<char>>::empty()) == Seq::<Seq<char>>::empty(),
        trim(l).len() > 0 ==> non_blank(ls.push(l)) == non_blank(ls).push(l),
        trim(l).len() == 0 ==> non_blank(ls.push(l)) == non_blank(ls),
        forall|i: int|
            0 <= i < non_blank(ls).len() ==> trim(#[trigger] non_blank(ls)[i]).len() > 0
                && ls.contains(non_blank(ls)[i]),
        (forall|i: int| 0 <= i < ls.len() ==> trim(#[trigger] ls[i]).len() > 0) ==> non_blank(ls)
            == ls,
    decreases ls.len(),
{
    assert(ls.push(l).drop_last() =~= ls);
    assert(ls.push(l).last() == l);
    if ls.len() > 0 {
        let p = ls.drop_last();
        key_lines_are_the_non_blank_lines(p, ls.last());
        assert(p.push(ls.last()) =~= ls);
        let nb = non_blank(ls);
        assert forall|i: int| 0 <= i < nb.len() implies trim(#[trigger] nb[i]).len() > 0
            && ls.contains(nb[i]) by {
            if i < non_blank(p).len() {
                assert(nb[i] == non_blank(p)[i]);
                let k = choose|k: int| 0 <= k < p.len() && p[k] == non_blank(p)[i];
                assert(ls[k] == p[k]);
            } else {
                assert(nb[i] == ls.last());
                assert(ls[ls.len() - 1] == ls.last());
            }
        }
        if forall|i: int| 0 <= i < ls.len() ==> trim(#[trigger] ls[i]).len() > 0 {
            assert forall|i: int| 0 <= i < p.len() implies trim(#[trigger] p[i]).len() > 0 by {
                assert(p[i] == ls[i]);
            }
            assert(trim(ls[ls.len() - 1]).len() > 0);
        }
    }
}

/// The source recorded for keys fetched from `url` for `username`.
pub open spec fn github_source(url: Seq<char>, username: Option<Seq<char>>) -> SourceView {
    SourceView::GithubKeys { url, username }
}

/// A key line of a `.keys` document that could not be added.
#[derive(Clone, Debug, PartialEq, Eq)]
pub struct GithubKeyError {
    pub line: String,
    pub error: KeyLineError,
}

/// The text of an optional string.
pub open spec fn opt_view(o: Option<&str>) -> Option<Seq<char>> {
    match o {
        Some(s) => Some(s@),
        None => None,
    }
}

/// The outcome of importing a GitHub `.keys` document: the recipients of
/// the lines accepted before the first refused line, in order, and that
/// line with why it was refused.
#[derive(Clone, Debug, PartialEq, Eq)]
pub struct KeysImport {
    pub recipients: Vec<RecipientKey>,
    pub failure: Option<GithubKeyError>,
}

/// The recipients of the non-blank lines of a GitHub `.keys` document, each
/// recorded with the GitHub source. The first line that is refused stops the
/// import; the recipients of the lines before it are kept.
pub fn recipients_from_github_keys(text: &str, url: &str, username: Option<&str>) -> (r: KeysImport)
    ensures
        ({
            let kl = key_lines(text@);
            let src = github_source(url@, opt_view(username));
            let n = r.recipients@.len() as int;
            &&& n <= kl.len()
            &&& forall|i: int|
                0 <= i < n ==> recipient_for_line(kl[i], src) == Ok::<
                    RecipientView,
                    KeyLineErrorView,
                >(#[trigger] r.recipients@[i]@)
            &&& (r.failure is None) == (n == kl.len())
            &&& r.failure matches Some(e) ==> e.line@ == kl[n] && recipient_for_line(kl[n], src)
                == Err::<RecipientView, KeyLineErrorView>(e.error@)
        }),
{
    let ghost src = github_source(url@, opt_view(username));
    let tv = chars_of(text);
    let ls = lines_of(tv.as_slice());
    let ghost all = lines(text@);
    let mut kept: Vec<Vec<char>> = Vec::new();
    let mut i: usize = 0;
    assert(all.take(0) =~= Seq::<Seq<char>>::empty());
    while i < ls.len()
        invariant
            i <= ls@.len(),
            ls.deep_view() == all,
            kept.deep_view() == non_blank(all.take(i as int)),
        decreases ls@.len() - i,
    {
        assert(all.take(i + 1).drop_last() =~= all.take(i as int));
        assert(ls@[i as int].deep_view() =~= ls@[i as int]@);
        let t = trim_chars(ls[i].as_slice());
        if t.len() > 0 {
            let ghost before = kept.deep_view();
            let line = crate::text::copy_range(ls[i].as_slice(), 0, ls[i].len());
            assert(line@ =~= ls@[i as int]@);
            assert(line.deep_view() =~= line@);
            kept.push(line);
            assert(kept.deep_view() =~= before.push(all[i as int]));
        }
        i = i + 1;
    }
    assert(all.take(i as int) =~= all);
    let mut out: Vec<RecipientKey> = Vec::new();
    let mut k: usize = 0;
    while k < kept.len()
        invariant
            k <= kept@.len(),
            kept.deep_view() == key_lines(text@),
            src == github_source(url@, opt_view(username)),
            out@.len() == k,
            forall|q: int|
                0 <= q < k ==> recipient_for_line(key_lines(text@)[q], src)
                    == Ok::<RecipientView, KeyLineErrorView>(#[trigger] out@[q]@),
        decreases kept@.len() - k,
    {
        assert(kept@[k as int].deep_view() =~= kept@[k as int]@);
        let line = string_of(kept[k].as_slice());
        let user = match username {
            Some(u) => Some(String::from_str(u)),
            None => None,
        };
        let source = RecipientSource::GithubKeys { url: String::from_str(url), username: user };
        assert(source@ == src);
        match recipient_from_public_key(line.as_str(), source) {
            Ok(recipient) => {
                out.push(recipient);
            },
            Err(error) => {
                assert(line@ == key_lines(text@)[k as int]);
                let e = GithubKeyError { line, error };
                return KeysImport { recipients: out, failure: Some(e) };
            },
        }
        k = k + 1;
    }
    KeysImport { recipients: out, failure: None }
}

/// The two files that removing a recipient deletes, when they exist.
#[derive(Clone, Debug, PartialEq, Eq)]
pub struct RemovalTargets {
    pub recipient_file: String,
    pub wrapped_file: String,
}

/// The files to delete to remove the recipient with `fingerprint`: its
/// recipient file and its wrapped key.
pub fn remove_recipient_by_fingerprint(repo_root: &str, fingerprint: &str) -> (r: RemovalTargets)
    ensures
        r.recipient_file@ == join(recipient_store_dir_of(repo_root@), fingerprint@ + ".toml"@),
        r.wrapped_file@ == join(wrapped_store_dir_of(repo_root@), fingerprint@ + ".age"@),
{
    RemovalTargets {
        recipient_file: recipient_file(repo_root, fingerprint),
        wrapped_file: wrapped_key_file(repo_root, fingerprint),
    }
}

/// The files to delete for each fingerprint, in order.
pub fn remove_recipients_by_fingerprints(repo_root: &str, fingerprints: &[String]) -> (r: Vec<
    RemovalTargets,
>)
    ensures
        r@.len() == fingerprints@.len(),
        forall|i: int|
            0 <= i < r@.len() ==> (#[trigger] r@[i]).recipient_file@ == join(
                recipient_store_dir_of(repo_root@),
                fingerprints@[i]@ + ".toml"@,
            ) && r@[i].wrapped_file@ == join(
                wrapped_store_dir_of(repo_root@),
                fingerprints@[i]@ + ".age"@,
            ),
{
    let mut out: Vec<RemovalTargets> = Vec::new();
    let mut i: usize = 0;
    while i < fingerprints.len()
        invariant
            i <= fingerprints@.len(),
            out@.len() == i,
            forall|q: int|
                0 <= q < i ==> (#[trigger] out@[q]).recipient_file@ == join(
                    recipient_store_dir_of(repo_root@),
                    fingerprints@[q]@ + ".toml"@,
                ) && out@[q].wrapped_file@ == join(
                    wrapped_store_dir_of(repo_root@),
                    fingerprints@[q]@ + ".age"@,
                ),
        decreases fingerprints@.len() - i,
    {
        out.push(remove_recipient_by_fingerprint(repo_root, fingerprints[i].as_str()));
        i = i + 1;
    }
    out
}

/// How many entries are `true`.
pub open spec fn count_true(s: Seq<bool>) -> nat
    decreases s.len(),
{
    if s.len() == 0 {
        0
    } else {
        count_true(s.drop_last()) + if s.last() {
            1nat
        } else {
            0nat
        }
    }
}

/// `count_true` counts the `true` entries: none in an empty sequence, and
/// one more exactly when a `true` entry is appended.
pub proof fn count_true_counts_true_entries(s: Seq<bool>, b: bool)
    ensures
        count_true(Seq::<bool>::empty()) == 0,
        count_true(s.push(b)) == count_true(s) + (if b {
            1int
        } else {
            0int
        }),
        count_true(s) <= s.len(),
        (forall|i: int| 0 <= i < s.len() ==> !s[i]) ==> count_true(s) == 0,
        (forall|i: int| 0 <= i < s.len() ==> s[i]) ==> count_true(s) == s.len(),
    decreases s.len(),
{
    assert(s.push(b).drop_last() =~= s);
    if s.len() > 0 {
        let p = s.drop_last();
        count_true_counts_true_entries(p, s.last());
        assert(p.push(s.last()) =~= s);
        assert(forall|i: int| 0 <= i < p.len() ==> p[i] == s[i]);
    }
}

/// The number of recipients that were removed, given for each fingerprint
/// whether any of its files existed and was deleted.
pub fn count_removed(removed: &[bool]) -> (r: usize)
    ensures
        r == count_true(removed@),
        r <= removed@.len(),
{
    let mut n: usize = 0;
    let mut i: usize = 0;
    while i < removed.len()
        invariant
            i <= removed@.len(),
            n == count_true(removed@.take(i as int)),
            n <= i,
        decreases removed@.len() - i,
    {
        assert(removed@.take(i + 1).drop_last() =~= removed@.take(i as int));
        if removed[i] {
            n = n + 1;
        }
        i = i + 1;
    }
    assert(removed@.take(i as int) =~= removed@);
    n
}

/// Whether `age` accepts a line as an SSH recipient.
pub uninterp spec fn ssh_recipient_parses(line: Seq<char>) -> bool;

/// `<age::ssh::Recipient as FromStr>::from_str`: parsing depends on the line
/// alone; the contract names whether it succeeds. Which keys it accepts is
/// not stated.
#[verifier::external_body]
fn ssh_recipient_accepts(line: &str) -> (r: bool)
    ensures
        r == ssh_recipient_parses(line@),
{
    <age::ssh::Recipient as std::str::FromStr>::from_str(line).is_ok()
}

/// Whether `file` is an age file that holds `data`, encrypted to the SSH
/// public key `line`, so that the matching private key decrypts it to `data`.
pub uninterp spec fn age_encrypts_to(line: Seq<char>, data: Seq<u8>, file: Seq<u8>) -> bool;

/// Encrypts `data` with `age` to the SSH recipient of `line`: the line is
/// parsed into an `age::ssh::Recipient`, then `Encryptor::with_recipients`,
/// `wrap_output`, `write_all` and `finish` write the age file into a byte
/// buffer. For one SSH recipient none of these steps fails (the recipient
/// has no labels, no passphrase is mixed in, and writing to a `Vec` cannot
/// fail), so the result is always `Some`. The bytes depend on a fresh random
/// file key: the contract only says that they are an age file of `data` for
/// that key (`age_encrypts_to`), not which one.
#[verifier::external_body]
fn age_encrypt(line: &str, data: &[u8]) -> (r: Option<Vec<u8>>)
    requires
        ssh_recipient_parses(line@),
    ensures
        r is Some,
        r matches Some(bytes) ==> age_encrypts_to(line@, data@, bytes@),
{
    let recipient = <age::ssh::Recipient as std::str::FromStr>::from_str(line).ok()?;
    let encryptor = age::Encryptor::with_recipients(
        std::iter::once(&recipient as &dyn age::Recipient),
    ).ok()?;
    let mut wrapped = Vec::new();
    let mut writer = encryptor.wrap_output(&mut wrapped).ok()?;
    std::io::Write::write_all(&mut writer, data).ok()?;
    writer.finish().ok()?;
    Some(wrapped)
}

/// A repository key wrapped for one recipient, and the file it belongs in.
#[derive(Clone, Debug, PartialEq, Eq)]
pub struct WrappedKey {
    pub file: String,
    pub wrapped: Vec<u8>,
}

/// Why the repository key could not be wrapped.
#[derive(Clone, Debug, PartialEq, Eq)]
pub enum WrapError {
    /// The keyring is empty.
    NoRecipients,
    /// `age` does not accept the recipient's public key line.
    InvalidPublicKey { fingerprint: String },
    /// `age` reported an error while encrypting.
    EncryptionFailed { fingerprint: String },
}

/// The wrapped key of a recipient, given what the encryption returned:
/// the bytes go to `<keys>/<fingerprint>.age`.
pub fn finish_wrap(repo_root: &str, fingerprint: &str, encrypted: Option<Vec<u8>>) -> (r: Result<
    WrappedKey,
    WrapError,
>)
    ensures
        encrypted matches Some(bytes) ==> (r matches Ok(w) && w.wrapped@ == bytes@ && w.file@
            == join(wrapped_store_dir_of(repo_root@), fingerprint@ + ".age"@)),
        encrypted is None ==> (r matches Err(WrapError::EncryptionFailed { fingerprint: f }) && f@
            == fingerprint@),
{
    match encrypted {
        Some(wrapped) => Ok(WrappedKey { file: wrapped_key_file(repo_root, fingerprint), wrapped }),
        None => Err(WrapError::EncryptionFailed { fingerprint: String::from_str(fingerprint) }),
    }
}

/// Whether `w` is the repository key `repo_key` wrapped for `recipient`:
/// the bytes are an age file of `repo_key` for the recipient's public key,
/// and the file is the recipient's wrapped-key file.
pub open spec fn wrapped_for(
    repo_root: Seq<char>,
    recipient: RecipientKey,
    repo_key: Seq<u8>,
    w: WrappedKey,
) -> bool {
    &&& age_encrypts_to(recipient.public_key_line@, repo_key, w.wrapped@)
    &&& w.file@ == join(wrapped_store_dir_of(repo_root), recipient.fingerprint@ + ".age"@)
}

/// The error for a recipient whose public key `age` does not accept.
pub open spec fn invalid_key_error(recipient: RecipientKey, e: WrapError) -> bool {
    e matches WrapError::InvalidPublicKey { fingerprint: f } && f@ == recipient.fingerprint@
}

/// Wraps the repository key for one recipient with `age`, to be written to
/// `<keys>/<fingerprint>.age`: it succeeds exactly when `age` accepts the
/// recipient's public key line.
pub fn wrap_repo_key_for_recipient(
    repo_root: &str,
    recipient: &RecipientKey,
    repo_key: &[u8],
) -> (r: Result<WrappedKey, WrapError>)
    ensures
        (r is Ok) == ssh_recipient_parses(recipient.public_key_line@),
        r matches Ok(w) ==> wrapped_for(repo_root@, *recipient, repo_key@, w),
        r matches Err(e) ==> invalid_key_error(*recipient, e),
{
    if !ssh_recipient_accepts(recipient.public_key_line.as_str()) {
        return Err(
            WrapError::InvalidPublicKey { fingerprint: String::from_str(recipient.fingerprint.as_str()) },
        );
    }
    let encrypted = age_encrypt(recipient.public_key_line.as_str(), repo_key);
    finish_wrap(repo_root, recipient.fingerprint.as_str(), encrypted)
}

/// The outcome of wrapping the repository key for a whole keyring: the keys
/// wrapped before the first failure, in keyring order, and that failure.
#[derive(Clone, Debug, PartialEq, Eq)]
pub struct WrapBatch {
    pub wrapped: Vec<WrappedKey>,
    pub failure: Option<WrapError>,
}

/// Wraps the repository key for every recipient, in order. An empty keyring
/// is refused; otherwise the first recipient whose key `age` does not accept
/// stops the batch, and the keys wrapped before it are kept.
pub fn wrap_repo_key_for_all_recipients(
    repo_root: &str,
    recipients: &[RecipientKey],
    repo_key: &[u8],
) -> (r: WrapBatch)
    ensures
        recipients@.len() == 0 ==> r.wrapped@.len() == 0 && r.failure == Some(
            WrapError::NoRecipients,
        ),
        recipients@.len() > 0 ==> {
            let n = r.wrapped@.len() as int;
            &&& n <= recipients@.len()
            &&& forall|i: int|
                0 <= i < n ==> wrapped_for(
                    repo_root@,
                    recipients@[i],
                    repo_key@,
                    #[trigger] r.wrapped@[i],
                )
            &&& (r.failure is None) == (n == recipients@.len())
            &&& r.failure matches Some(e) ==> !ssh_recipient_parses(
                recipients@[n].public_key_line@,
            ) && invalid_key_error(recipients@[n], e)
        },
        (forall|i: int|
            0 <= i < recipients@.len() ==> ssh_recipient_parses(
                (#[trigger] recipients@[i]).public_key_line@,
            )) ==> (recipients@.len() > 0 ==> r.failure is None),
{
    if recipients.len() == 0 {
        return WrapBatch { wrapped: Vec::new(), failure: Some(WrapError::NoRecipients) };
    }
    let mut out: Vec<WrappedKey> = Vec::new();
    let mut i: usize = 0;
    while i < recipients.len()
        invariant
            i <= recipients@.len(),
            out@.len() == i,
            forall|q: int|
                0 <= q < i ==> wrapped_for(repo_root@, recipients@[q], repo_key@, #[trigger] out@[q]),
        decreases recipients@.len() - i,
    {
        match wrap_repo_key_for_recipient(repo_root, &recipients[i], repo_key) {
            Ok(w) => {
                out.push(w);
            },
            Err(e) => {
                return WrapBatch { wrapped: out, failure: Some(e) };
            },
        }
        i = i + 1;
    }
    WrapBatch { wrapped: out, failure: None }
}

} // verus!
