//! The data that git-sshripped keeps in its metadata files: the repository
//! manifest, the GitHub source registry, the local configuration, the
//! filter-install marker, agent-wrapped keys and keyring recipients.

use vstd::prelude::*;

verus! {

/// How file contents are encrypted: path-bound (`AesSivV1`, algorithm id 1)
/// or movable (`AesSivMovableV1`, algorithm id 2).
#[derive(Clone, Copy, Debug, PartialEq, Eq, Structural)]
pub enum EncryptionAlgorithm {
    AesSivV1,
    AesSivMovableV1,
}

/// The committed per-repository policy.
#[derive(Clone, Debug, PartialEq, Eq)]
pub struct RepositoryManifest {
    pub manifest_version: u32,
    pub encryption_algorithm: EncryptionAlgorithm,
    pub strict_mode: bool,
    pub repo_key_id: Option<String>,
    pub min_recipients: usize,
    pub allowed_key_types: Vec<String>,
    pub require_doctor_clean_for_rotate: bool,
    pub require_verify_strict_clean_for_rotate_revoke: bool,
    pub max_source_staleness_hours: Option<u64>,
}

/// The key types a new manifest allows, in order.
pub open spec fn default_allowed_key_types() -> Seq<Seq<char>> {
    seq!["ssh-ed25519"@, "ssh-rsa"@]
}

/// The text of each string in a vector.
pub open spec fn strings_view(v: Seq<String>) -> Seq<Seq<char>> {
    v.map_values(|s: String| s@)
}

impl Default for RepositoryManifest {
    fn default() -> (m: Self)
        ensures
            m.manifest_version == 1,
            m.encryption_algorithm == EncryptionAlgorithm::AesSivMovableV1,
            !m.strict_mode,
            m.repo_key_id is None,
            m.min_recipients == 1,
            strings_view(m.allowed_key_types@) == default_allowed_key_types(),
            !m.require_doctor_clean_for_rotate,
            !m.require_verify_strict_clean_for_rotate_revoke,
            m.max_source_staleness_hours is None,
    {
        let mut allowed: Vec<String> = Vec::new();
        allowed.push(String::from_str("ssh-ed25519"));
        allowed.push(String::from_str("ssh-rsa"));
        assert(strings_view(allowed@) =~= default_allowed_key_types());
        RepositoryManifest {
            manifest_version: 1,
            encryption_algorithm: EncryptionAlgorithm::AesSivMovableV1,
            strict_mode: false,
            repo_key_id: None,
            min_recipients: 1,
            allowed_key_types: allowed,
            require_doctor_clean_for_rotate: false,
            require_verify_strict_clean_for_rotate_revoke: false,
            max_source_staleness_hours: None,
        }
    }
}

/// GitHub users and teams whose SSH keys are tracked as recipients.
#[derive(Clone, Debug, PartialEq, Eq)]
pub struct GithubSourceRegistry {
    pub users: Vec<GithubUserSource>,
    pub teams: Vec<GithubTeamSource>,
}

impl Default for GithubSourceRegistry {
    fn default() -> (r: Self)
        ensures
            r.users@.len() == 0,
            r.teams@.len() == 0,
    {
        GithubSourceRegistry { users: Vec::new(), teams: Vec::new() }
    }
}

/// One GitHub user whose keys are tracked.
#[derive(Clone, Debug, PartialEq, Eq)]
pub struct GithubUserSource {
    pub username: String,
    pub url: String,
    pub fingerprints: Vec<String>,
    pub last_refreshed_unix: u64,
    pub etag: Option<String>,
    pub last_refresh_status_code: Option<String>,
    pub last_refresh_message: Option<String>,
}

/// One GitHub team whose members' keys are tracked.
#[derive(Clone, Debug, PartialEq, Eq)]
pub struct GithubTeamSource {
    pub org: String,
    pub team: String,
    pub member_usernames: Vec<String>,
    pub fingerprints: Vec<String>,
    pub last_refreshed_unix: u64,
    pub etag: Option<String>,
    pub last_refresh_status_code: Option<String>,
    pub last_refresh_message: Option<String>,
}

/// Settings that stay on this machine and are never committed.
#[derive(Clone, Debug, PartialEq, Eq)]
pub struct RepositoryLocalConfig {
    pub agent_helper: Option<String>,
    pub github_api_base: Option<String>,
    pub github_web_base: Option<String>,
    pub github_auth_mode: Option<String>,
    pub github_private_source_hard_fail: Option<bool>,
}

impl Default for RepositoryLocalConfig {
    fn default() -> (c: Self)
        ensures
            c.agent_helper is None,
            c.github_api_base is None,
            c.github_web_base is None,
            c.github_auth_mode is None,
            c.github_private_source_hard_fail is None,
    {
        RepositoryLocalConfig {
            agent_helper: None,
            github_api_base: None,
            github_web_base: None,
            github_auth_mode: None,
            github_private_source_hard_fail: None,
        }
    }
}

/// Records the Git filter configuration that was last installed, so that an
/// unchanged configuration need not be written again.
#[derive(Clone, Debug, PartialEq, Eq)]
pub struct FilterInstallMarker {
    /// Schema version of the marker layout.
    pub version: u32,
    /// Path of the binary embedded in the filter commands.
    pub bin_path: String,
    /// Whether the filters went to the worktree-scoped configuration.
    pub linked_worktree: bool,
    /// Working-tree root at installation time.
    pub repo_root: String,
}

impl FilterInstallMarker {
    /// Current marker schema version; a marker of any other version is stale.
    pub const SCHEMA_VERSION: u32 = 1;

    /// The marker that a successful filter installation records: the current
    /// schema version, the binary path, the configuration scope and the
    /// working-tree root.
    pub fn installed(bin_path: &str, linked_worktree: bool, repo_root: &str) -> (r: Self)
        ensures
            r.version == Self::SCHEMA_VERSION,
            r.bin_path@ == bin_path@,
            r.linked_worktree == linked_worktree,
            r.repo_root@ == repo_root@,
    {
        FilterInstallMarker {
            version: Self::SCHEMA_VERSION,
            bin_path: String::from_str(bin_path),
            linked_worktree,
            repo_root: String::from_str(repo_root),
        }
    }
}

/// A repository key wrapped with a key derived from an SSH-agent signature.
#[derive(Clone, Debug, PartialEq, Eq)]
pub struct AgentWrappedKey {
    /// Format version.
    pub version: u32,
    /// Fingerprint of the SSH key that unwraps it.
    pub fingerprint: String,
    /// Base64 challenge that the agent signs.
    pub challenge: String,
    /// Base64 nonce.
    pub nonce: String,
    /// Base64 ciphertext of the repository key.
    pub encrypted_repo_key: String,
}

/// How a recipient came to be in the keyring.
#[derive(Clone, Debug, PartialEq, Eq)]
pub enum RecipientSource {
    LocalFile,
    LegacyGithubKeysUrl { url: String },
    GithubKeys { url: String, username: Option<String> },
}

/// An SSH public key that may unwrap the repository key.
#[derive(Clone, Debug, PartialEq, Eq)]
pub struct RecipientKey {
    pub fingerprint: String,
    pub key_type: String,
    pub public_key_line: String,
    pub source: RecipientSource,
}

/// The text of a recipient source.
pub enum SourceView {
    LocalFile,
    LegacyGithubKeysUrl { url: Seq<char> },
    GithubKeys { url: Seq<char>, username: Option<Seq<char>> },
}

/// The text of a recipient.
pub struct RecipientView {
    pub fingerprint: Seq<char>,
    pub key_type: Seq<char>,
    pub public_key_line: Seq<char>,
    pub source: SourceView,
}

impl View for RecipientSource {
    type V = SourceView;

    open spec fn view(&self) -> SourceView {
        match self {
            RecipientSource::LocalFile => SourceView::LocalFile,
            RecipientSource::LegacyGithubKeysUrl { url } => SourceView::LegacyGithubKeysUrl {
                url: url@,
            },
            RecipientSource::GithubKeys { url, username } => SourceView::GithubKeys {
                url: url@,
                username: match username {
                    Some(u) => Some(u@),
                    None => None,
                },
            },
        }
    }
}

impl View for RecipientKey {
    type V = RecipientView;

    open spec fn view(&self) -> RecipientView {
        RecipientView {
            fingerprint: self.fingerprint@,
            key_type: self.key_type@,
            public_key_line: self.public_key_line@,
            source: self.source@,
        }
    }
}

} // verus!
