# git_sshripped

Transparent encryption of Git files to a keyring of SSH public keys.

- `src/` is the verified library (Verus): path layout of the
  `.git-sshripped` metadata, the recipient keyring (fingerprints, key-line
  parsing, GitHub `.keys` import, ordering, removal, wrapping the repository
  key with `age`), `.gitattributes` merging, the Git filter configuration
  and shell quoting, the clean/smudge/diff filter decisions, the blob-to-path
  cache used by textconv, and the tracing switch.
- `app/` is the unverified shell around it: file and network I/O, running
  `git`, TOML/JSON persistence through serde, and the tracing subscriber.
- `tests/` exercises the library with the real outside crates linked.
