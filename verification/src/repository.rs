//! Where git-sshripped keeps its metadata: the committed `.git-sshripped/`
//! directory of a working tree, and the machine-local files inside the Git
//! common directory.

use vstd::prelude::*;
use crate::paths::{is_absolute, join, join_path, lemma_join_injective};
use crate::models::strings_view;
use crate::text::{chars_of, concat};

verus! {

/// `<repo>/.git-sshripped`.
pub open spec fn metadata_dir_of(repo_root: Seq<char>) -> Seq<char> {
    join(repo_root, ".git-sshripped"@)
}

/// `<common>/git-sshripped-agent-wrap`.
pub open spec fn agent_wrap_dir_of(common_dir: Seq<char>) -> Seq<char> {
    join(common_dir, "git-sshripped-agent-wrap"@)
}

/// `<common>/git-sshripped-agent-wrap/<fingerprint>.toml`.
pub open spec fn agent_wrap_file_of(common_dir: Seq<char>, fingerprint: Seq<char>) -> Seq<char> {
    join(agent_wrap_dir_of(common_dir), fingerprint + ".toml"@)
}

/// The metadata directory of a working tree.
pub fn metadata_dir(repo_root: &str) -> (r: String)
    ensures
        r@ == metadata_dir_of(repo_root@),
{
    join_path(repo_root, ".git-sshripped")
}

/// The repository manifest file.
pub fn manifest_file(repo_root: &str) -> (r: String)
    ensures
        r@ == join(metadata_dir_of(repo_root@), "manifest.toml"@),
{
    let dir = metadata_dir(repo_root);
    join_path(dir.as_str(), "manifest.toml")
}

/// The GitHub source registry file.
pub fn github_sources_file(repo_root: &str) -> (r: String)
    ensures
        r@ == join(metadata_dir_of(repo_root@), "github-sources.toml"@),
{
    let dir = metadata_dir(repo_root);
    join_path(dir.as_str(), "github-sources.toml")
}

/// The local configuration file.
pub fn local_config_file(repo_root: &str) -> (r: String)
    ensures
        r@ == join(metadata_dir_of(repo_root@), "config.toml"@),
{
    let dir = metadata_dir(repo_root);
    join_path(dir.as_str(), "config.toml")
}

/// The `.gitattributes` file at the root of a working tree.
pub fn gitattributes_file(repo_root: &str) -> (r: String)
    ensures
        r@ == join(repo_root@, ".gitattributes"@),
{
    join_path(repo_root, ".gitattributes")
}

/// Directory for agent-wrapped key files inside the Git common directory.
pub fn agent_wrap_dir(common_dir: &str) -> (r: String)
    ensures
        r@ == agent_wrap_dir_of(common_dir@),
{
    join_path(common_dir, "git-sshripped-agent-wrap")
}

/// The agent-wrapped key file of one fingerprint.
pub fn agent_wrap_file(common_dir: &str, fingerprint: &str) -> (r: String)
    ensures
        r@ == agent_wrap_file_of(common_dir@, fingerprint@),
{
    let dir = agent_wrap_dir(common_dir);
    let name = concat(fingerprint, ".toml");
    join_path(dir.as_str(), name.as_str())
}

/// The filter-install marker inside the Git common directory.
pub fn filter_marker_file(common_dir: &str) -> (r: String)
    ensures
        r@ == join(
            join(join(common_dir@, "git-sshripped"@), "session"@),
            "filters-installed.json"@,
        ),
{
    let a = join_path(common_dir, "git-sshripped");
    let b = join_path(a.as_str(), "session");
    join_path(b.as_str(), "filters-installed.json")
}

/// Distinct fingerprints that do not start with `/` have distinct
/// agent-wrap files.
pub proof fn agent_wrap_files_are_distinct(
    common_dir: Seq<char>,
    fingerprint1: Seq<char>,
    fingerprint2: Seq<char>,
)
    requires
        !is_absolute(fingerprint1),
        !is_absolute(fingerprint2),
    ensures
        (agent_wrap_file_of(common_dir, fingerprint1) == agent_wrap_file_of(common_dir, fingerprint2))
            == (fingerprint1 == fingerprint2),
{
    let suffix = ".toml"@;
    reveal_strlit(".toml");
    let n1 = fingerprint1 + suffix;
    let n2 = fingerprint2 + suffix;
    assert(!is_absolute(n1)) by {
        if fingerprint1.len() == 0 {
            assert(n1[0] == '.');
        } else {
            assert(n1[0] == fingerprint1[0]);
        }
    }
    assert(!is_absolute(n2)) by {
        if fingerprint2.len() == 0 {
            assert(n2[0] == '.');
        } else {
            assert(n2[0] == fingerprint2[0]);
        }
    }
    lemma_join_injective(agent_wrap_dir_of(common_dir), n1, n2);
    if n1 == n2 {
        assert(fingerprint1 =~= n1.take(n1.len() - 5));
        assert(fingerprint2 =~= n2.take(n2.len() - 5));
    }
}

/// Index of the last `c` in `s`, or -1.
pub open spec fn rfind(s: Seq<char>, c: char) -> int
    decreases s.len(),
{
    if s.len() == 0 {
        -1
    } else if s.last() == c {
        s.len() - 1
    } else {
        rfind(s.drop_last(), c)
    }
}

/// `Path::extension` of a single file name.
pub open spec fn extension(name: Seq<char>) -> Option<Seq<char>> {
    if name == ".."@ || rfind(name, '.') <= 0 {
        None
    } else {
        Some(name.skip(rfind(name, '.') + 1))
    }
}

/// Whether a file name has the extension `toml`, compared ignoring ASCII case.
pub open spec fn is_toml_name(name: Seq<char>) -> bool {
    match extension(name) {
        Some(ext) => ext.len() == 4 && (ext[0] == 't' || ext[0] == 'T') && (ext[1] == 'o' || ext[1]
            == 'O') && (ext[2] == 'm' || ext[2] == 'M') && (ext[3] == 'l' || ext[3] == 'L'),
        None => false,
    }
}

pub proof fn lemma_rfind_bounds(s: Seq<char>, c: char)
    ensures
        -1 <= rfind(s, c) < s.len(),
        rfind(s, c) >= 0 ==> s[rfind(s, c)] == c,
        forall|i: int| rfind(s, c) < i < s.len() ==> s[i] != c,
    decreases s.len(),
{
    if s.len() > 0 && s.last() != c {
        lemma_rfind_bounds(s.drop_last(), c);
        assert forall|i: int| rfind(s, c) < i < s.len() implies s[i] != c by {
            if i < s.len() - 1 {
                assert(s[i] == s.drop_last()[i]);
            }
        }
    }
}

/// Whether a directory entry name is an agent-wrap file (`*.toml`, any case).
pub fn has_toml_extension(name: &str) -> (r: bool)
    ensures
        r == is_toml_name(name@),
{
    let v = chars_of(name);
    if v.len() == 2 && v[0] == '.' && v[1] == '.' {
        proof {
            reveal_strlit("..");
            assert(v@ =~= ".."@);
        }
        return false;
    }
    proof {
        reveal_strlit("..");
        if v@ == ".."@ {
            assert(v@.len() == 2);
        }
    }
    let mut k = v.len();
    assert(v@.take(k as int) =~= v@);
    while k > 0 && v[k - 1] != '.'
        invariant
            k <= v@.len(),
            rfind(v@, '.') == rfind(v@.take(k as int), '.'),
        decreases k,
    {
        assert(v@.take(k as int).drop_last() =~= v@.take(k - 1));
        k = k - 1;
    }
    proof {
        lemma_rfind_bounds(v@.take(k as int), '.');
        if k > 0 {
            assert(rfind(v@.take(k as int), '.') == k - 1);
        } else {
            assert(v@.take(0) =~= Seq::<char>::empty());
        }
    }
    if k <= 1 {
        return false;
    }
    if v.len() - k != 4 {
        return false;
    }
    (v[k] == 't' || v[k] == 'T') && (v[k + 1] == 'o' || v[k + 1] == 'O') && (v[k + 2] == 'm'
        || v[k + 2] == 'M') && (v[k + 3] == 'l' || v[k + 3] == 'L')
}

/// The agent-wrap files among the entries of the agent-wrap directory: the
/// paths of the entries whose names have the extension `toml`.
pub open spec fn agent_wrap_entries(dir: Seq<char>, names: Seq<Seq<char>>) -> Seq<Seq<char>>
    decreases names.len(),
{
    if names.len() == 0 {
        seq![]
    } else if is_toml_name(names.last()) {
        agent_wrap_entries(dir, names.drop_last()).push(join(dir, names.last()))
    } else {
        agent_wrap_entries(dir, names.drop_last())
    }
}

/// The agent-wrap files among the entries (file names, in directory order)
/// of the agent-wrap directory of `common_dir`.
pub fn agent_wrap_files(common_dir: &str, names: &[String]) -> (r: Vec<String>)
    ensures
        strings_view(r@) == agent_wrap_entries(agent_wrap_dir_of(common_dir@), strings_view(names@)),
{
    let dir = agent_wrap_dir(common_dir);
    let ghost all = strings_view(names@);
    let mut out: Vec<String> = Vec::new();
    let mut i: usize = 0;
    assert(all.take(0) =~= Seq::<Seq<char>>::empty());
    assert(strings_view(out@) =~= Seq::<Seq<char>>::empty());
    while i < names.len()
        invariant
            i <= names@.len(),
            all == strings_view(names@),
            dir@ == agent_wrap_dir_of(common_dir@),
            strings_view(out@) == agent_wrap_entries(dir@, all.take(i as int)),
        decreases names@.len() - i,
    {
        assert(all.take(i + 1).drop_last() =~= all.take(i as int));
        if has_toml_extension(names[i].as_str()) {
            let ghost before = out@;
            out.push(join_path(dir.as_str(), names[i].as_str()));
            assert(strings_view(out@) =~= strings_view(before).push(join(dir@, all[i as int])));
        }
        i = i + 1;
    }
    assert(all.take(i as int) =~= all);
    out
}

} // verus!
