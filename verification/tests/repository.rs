use git_sshripped::gitattributes::install_gitattributes;
use git_sshripped::gitconfig::{
    config_value_from_output, git_filter_settings, needs_config_write, shell_quote, GitConfigEntry,
};
use git_sshripped::models::{
    EncryptionAlgorithm, FilterInstallMarker, GithubSourceRegistry, RepositoryLocalConfig,
    RepositoryManifest,
};
use git_sshripped::repository::{
    agent_wrap_dir, agent_wrap_file, agent_wrap_files, filter_marker_file, github_sources_file,
    gitattributes_file, has_toml_extension, local_config_file, manifest_file, metadata_dir,
};

#[test]
fn metadata_paths() {
    assert_eq!(metadata_dir("/repo"), "/repo/.git-sshripped");
    assert_eq!(manifest_file("/repo"), "/repo/.git-sshripped/manifest.toml");
    assert_eq!(github_sources_file("/repo"), "/repo/.git-sshripped/github-sources.toml");
    assert_eq!(local_config_file("/repo"), "/repo/.git-sshripped/config.toml");
    assert_eq!(gitattributes_file("/repo/"), "/repo/.gitattributes");
    assert_eq!(metadata_dir("rel"), "rel/.git-sshripped");
}

#[test]
fn common_dir_paths() {
    assert_eq!(agent_wrap_dir("/repo/.git"), "/repo/.git/git-sshripped-agent-wrap");
    assert_eq!(
        agent_wrap_file("/repo/.git", "SHA256:abc"),
        "/repo/.git/git-sshripped-agent-wrap/SHA256:abc.toml"
    );
    assert_eq!(
        filter_marker_file("/repo/.git"),
        "/repo/.git/git-sshripped/session/filters-installed.json"
    );
}

#[test]
fn toml_extension_detection() {
    assert!(has_toml_extension("a.toml"));
    assert!(has_toml_extension("a.TOML"));
    assert!(has_toml_extension("x.b.Toml"));
    assert!(!has_toml_extension(".toml"));
    assert!(!has_toml_extension("toml"));
    assert!(!has_toml_extension("a.tomlx"));
    assert!(!has_toml_extension("a.json"));
    assert!(!has_toml_extension(".."));
    assert!(has_toml_extension("..toml"));
}

#[test]
fn agent_wrap_listing() {
    let names = vec!["k1.toml".to_string(), "notes.txt".to_string(), "K2.TOML".to_string()];
    assert_eq!(
        agent_wrap_files("/c", &names),
        vec![
            "/c/git-sshripped-agent-wrap/k1.toml".to_string(),
            "/c/git-sshripped-agent-wrap/K2.TOML".to_string()
        ]
    );
}

#[test]
fn gitattributes_into_empty_file() {
    let pats = vec!["*.env".to_string(), "!public.env".to_string()];
    assert_eq!(
        install_gitattributes("", &pats),
        "*.env filter=git-sshripped diff=git-sshripped\npublic.env !filter !diff\n"
    );
}

#[test]
fn gitattributes_appends_after_unterminated_line() {
    let pats = vec!["secrets/**".to_string()];
    assert_eq!(
        install_gitattributes("*.png binary", &pats),
        "*.png binary\nsecrets/** filter=git-sshripped diff=git-sshripped\n"
    );
}

#[test]
fn gitattributes_is_idempotent() {
    let pats = vec!["*.env".to_string(), "!a.env".to_string(), "*.env".to_string()];
    let once = install_gitattributes("*.md text\n", &pats);
    assert_eq!(
        once,
        "*.md text\n*.env filter=git-sshripped diff=git-sshripped\na.env !filter !diff\n"
    );
    assert_eq!(install_gitattributes(&once, &pats), once);
}

#[test]
fn gitattributes_existing_line_with_spaces_and_crlf() {
    let existing = "  *.env filter=git-sshripped diff=git-sshripped  \r\n";
    assert_eq!(install_gitattributes(existing, &["*.env".to_string()]), existing);
}

#[test]
fn shell_quoting() {
    assert_eq!(shell_quote("/usr/bin/git-sshripped"), "/usr/bin/git-sshripped");
    assert_eq!(shell_quote("/opt/my tools/bin"), "'/opt/my tools/bin'");
    assert_eq!(shell_quote("it's"), "'it'\\''s'");
    assert_eq!(shell_quote("a$b"), "'a$b'");
    assert_eq!(shell_quote(""), "");
    assert_eq!(shell_quote("/opt/gs*"), "'/opt/gs*'");
    assert_eq!(shell_quote("~/bin/gs"), "'~/bin/gs'");
    assert_eq!(shell_quote("/opt/gs?[1]"), "'/opt/gs?[1]'");
    assert_eq!(shell_quote("/opt/{a,b}"), "'/opt/{a,b}'");
}

#[test]
fn filter_settings_for_main_worktree() {
    let s = git_filter_settings("/bin/gs", false);
    assert_eq!(s.scope, "--local");
    assert_eq!(s.worktree_extension, None);
    let pairs: Vec<(String, String)> =
        s.entries.into_iter().map(|e| (e.key, e.value)).collect();
    assert_eq!(
        pairs,
        vec![
            ("filter.git-sshripped.process".to_string(), "/bin/gs filter-process".to_string()),
            ("filter.git-sshripped.clean".to_string(), "/bin/gs clean --path %f".to_string()),
            ("filter.git-sshripped.smudge".to_string(), "/bin/gs smudge --path %f".to_string()),
            ("filter.git-sshripped.required".to_string(), "true".to_string()),
            ("diff.git-sshripped.textconv".to_string(), "/bin/gs diff --path %f".to_string()),
        ]
    );
}

#[test]
fn filter_settings_for_linked_worktree() {
    let s = git_filter_settings("/my bin/gs", true);
    assert_eq!(s.scope, "--worktree");
    assert_eq!(
        s.worktree_extension,
        Some(GitConfigEntry {
            key: "extensions.worktreeConfig".to_string(),
            value: "true".to_string()
        })
    );
    assert_eq!(s.entries[1].value, "'/my bin/gs' clean --path %f");
}

#[test]
fn config_writes_only_when_different() {
    assert!(!needs_config_write(Some("true"), "true"));
    assert!(needs_config_write(Some("false"), "true"));
    assert!(needs_config_write(None, "true"));
    assert_eq!(config_value_from_output("gs clean --path %f\n\n"), "gs clean --path %f");
    assert_eq!(config_value_from_output("x \n"), "x ");
}

#[test]
fn manifest_defaults() {
    let m = RepositoryManifest::default();
    assert_eq!(m.manifest_version, 1);
    assert_eq!(m.encryption_algorithm, EncryptionAlgorithm::AesSivMovableV1);
    assert!(!m.strict_mode);
    assert_eq!(m.repo_key_id, None);
    assert_eq!(m.min_recipients, 1);
    assert_eq!(m.allowed_key_types, vec!["ssh-ed25519".to_string(), "ssh-rsa".to_string()]);
    assert!(!m.require_doctor_clean_for_rotate);
    assert!(!m.require_verify_strict_clean_for_rotate_revoke);
    assert_eq!(m.max_source_staleness_hours, None);
}

#[test]
fn other_defaults() {
    let r = GithubSourceRegistry::default();
    assert!(r.users.is_empty() && r.teams.is_empty());
    let c = RepositoryLocalConfig::default();
    assert_eq!(c.agent_helper, None);
    assert_eq!(c.github_private_source_hard_fail, None);
    assert_eq!(FilterInstallMarker::SCHEMA_VERSION, 1);
}

#[test]
fn installed_filter_marker_records_the_install() {
    let m = FilterInstallMarker::installed("/usr/bin/git-sshripped", true, "/work/repo");
    assert_eq!(m.version, FilterInstallMarker::SCHEMA_VERSION);
    assert_eq!(m.bin_path, "/usr/bin/git-sshripped");
    assert!(m.linked_worktree);
    assert_eq!(m.repo_root, "/work/repo");
}

#[test]
fn gitattributes_closed_form_example() {
    let existing = "a\n*.env filter=git-sshripped diff=git-sshripped\nb";
    let pats = vec!["*.env".to_string(), "x".to_string(), "x".to_string()];
    assert_eq!(
        install_gitattributes(existing, &pats),
        "a\n*.env filter=git-sshripped diff=git-sshripped\nb\nx filter=git-sshripped diff=git-sshripped\n"
    );
}
