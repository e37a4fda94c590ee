use git_sshripped::textconv::{
    cache_file_path, git_output_value, load_cache, parse_ls_files_into, parse_rev_list_into,
    render_cache, resolve_start, resolve_step, PathIndex, ResolveAction, ResolveEvent,
    ResolveState,
};

const HELLO_OID: &str = "3b18e512dba79e4c8300dd08aeb37f8e728b8dad";

/// The answers Git and the file system give in one simulated repository.
struct World {
    blob_hash: Option<String>,
    head: Option<String>,
    git_dir: Option<String>,
    cache: Option<String>,
    rev_list: Option<String>,
    ls_files: Option<String>,
}

/// Runs a resolution against `world`; returns the paths and the cache
/// write, if any.
fn run(world: &World) -> (Vec<String>, Option<(String, String)>) {
    let (mut state, mut action) = resolve_start("/repo");
    loop {
        let event = match action {
            ResolveAction::HashBlob => ResolveEvent::BlobHash(world.blob_hash.clone()),
            ResolveAction::ReadHead => ResolveEvent::Head(world.head.clone()),
            ResolveAction::LocateGitDir => ResolveEvent::GitDir(world.git_dir.clone()),
            ResolveAction::ReadCache { path } => {
                assert_eq!(path, "/repo/.git/git-sshripped/textconv-paths.cache");
                ResolveEvent::CacheContents(world.cache.clone())
            }
            ResolveAction::Rebuild => ResolveEvent::Rebuilt {
                rev_list: world.rev_list.clone(),
                ls_files: world.ls_files.clone(),
            },
            ResolveAction::Finish { cache_write, paths } => {
                assert_eq!(state, ResolveState::Done);
                return (paths, cache_write);
            }
        };
        let next = resolve_step(state, event);
        state = next.0;
        action = next.1;
    }
}

fn committed_readme() -> World {
    World {
        blob_hash: Some(format!("{HELLO_OID}\n")),
        head: Some("1111111111111111111111111111111111111111\n".to_string()),
        git_dir: Some(".git\n".to_string()),
        cache: None,
        rev_list: Some(format!(
            "1111111111111111111111111111111111111111\n2222222222222222222222222222222222222222 \n{HELLO_OID} README.md\n"
        )),
        ls_files: Some(format!("100644 {HELLO_OID} 0\tREADME.md\n")),
    }
}

#[test]
fn resolve_paths_returns_empty_for_non_repo() {
    let world = World {
        blob_hash: Some("f9e8d5b7bea7c2de6e0b4ba9d4a5c1b0e5e1d3c2\n".to_string()),
        head: None,
        git_dir: None,
        cache: None,
        rev_list: None,
        ls_files: None,
    };
    let (result, write) = run(&world);
    assert!(result.is_empty());
    assert_eq!(write, None);
}

#[test]
fn resolve_paths_returns_empty_for_unknown_blob() {
    let world = World {
        blob_hash: Some("aaaaaaaaaaaaaaaaaaaaaaaaaaaaaaaaaaaaaaaa\n".to_string()),
        head: None,
        git_dir: Some(".git\n".to_string()),
        cache: None,
        rev_list: Some(String::new()),
        ls_files: Some(String::new()),
    };
    let (result, write) = run(&world);
    assert!(result.is_empty());
    assert_eq!(
        write,
        Some(("/repo/.git/git-sshripped/textconv-paths.cache".to_string(), "NONE\n".to_string()))
    );
}

#[test]
fn resolve_paths_finds_committed_blob() {
    let (result, write) = run(&committed_readme());
    assert!(result.iter().any(|p| p == "README.md"), "expected README.md in {result:?}");
    let (_, text) = write.unwrap();
    assert!(text.starts_with("1111111111111111111111111111111111111111\n"));
    assert!(text.contains(&format!("{HELLO_OID} README.md\n")));
}

#[test]
fn resolve_paths_finds_staged_only_blob() {
    let oid = "5b1c9e0f8c3d2a7b6e4f1a0d9c8b7a6e5f4d3c2b";
    let world = World {
        blob_hash: Some(format!("{oid}\n")),
        head: None,
        git_dir: Some("/abs/.git".to_string()),
        cache: None,
        rev_list: Some(String::new()),
        ls_files: Some(format!("100644 {oid} 0\tstaged.txt\n")),
    };
    let (result, write) = run_abs(&world);
    assert!(result.iter().any(|p| p == "staged.txt"), "expected staged.txt in {result:?}");
    assert_eq!(write.unwrap().0, "/abs/.git/git-sshripped/textconv-paths.cache");
}

fn run_abs(world: &World) -> (Vec<String>, Option<(String, String)>) {
    let (mut state, mut action) = resolve_start("/repo");
    loop {
        let event = match action {
            ResolveAction::HashBlob => ResolveEvent::BlobHash(world.blob_hash.clone()),
            ResolveAction::ReadHead => ResolveEvent::Head(world.head.clone()),
            ResolveAction::LocateGitDir => ResolveEvent::GitDir(world.git_dir.clone()),
            ResolveAction::ReadCache { .. } => ResolveEvent::CacheContents(world.cache.clone()),
            ResolveAction::Rebuild => ResolveEvent::Rebuilt {
                rev_list: world.rev_list.clone(),
                ls_files: world.ls_files.clone(),
            },
            ResolveAction::Finish { cache_write, paths } => return (paths, cache_write),
        };
        let next = resolve_step(state, event);
        state = next.0;
        action = next.1;
    }
}

#[test]
fn cache_is_invalidated_when_head_changes() {
    let first = committed_readme();
    let (_, write) = run(&first);
    let (_, initial) = write.expect("cache should be written");
    let initial_head = initial.lines().next().expect("first line").to_string();

    let b_oid = "e019be006cf33489e2d0177a3837a2384eddebc5";
    let mut second = committed_readme();
    second.blob_hash = Some(format!("{b_oid}\n"));
    second.head = Some("3333333333333333333333333333333333333333\n".to_string());
    second.cache = Some(initial.clone());
    second.rev_list = Some(format!(
        "{}{b_oid} b.txt\n",
        first.rev_list.clone().unwrap()
    ));
    second.ls_files = Some(format!("{}100644 {b_oid} 0\tb.txt\n", first.ls_files.clone().unwrap()));
    let (result, write) = run(&second);
    assert!(result.iter().any(|p| p == "b.txt"), "expected b.txt in {result:?}");
    let (_, updated) = write.expect("cache rewritten");
    let updated_head = updated.lines().next().expect("first line 2").to_string();
    assert_ne!(initial_head, updated_head, "cache HEAD should be refreshed");
}

#[test]
fn corrupt_cache_is_treated_as_miss() {
    let oid = "f2ad6c76f0115a6ba5b00456a849810e7ec0af20";
    let mut world = committed_readme();
    world.blob_hash = Some(format!("{oid}\n"));
    world.cache = None;
    world.rev_list = Some(format!("{oid} c.txt\n"));
    world.ls_files = Some(format!("100644 {oid} 0\tc.txt\n"));
    let (result, _) = run(&world);
    assert!(result.iter().any(|p| p == "c.txt"), "expected c.txt in {result:?}");
}

#[test]
fn cache_hit_answers_without_rebuilding() {
    let mut world = committed_readme();
    world.cache = Some(format!(
        "1111111111111111111111111111111111111111\n{HELLO_OID} docs/hello.txt\n"
    ));
    world.rev_list = None;
    world.ls_files = None;
    let (result, write) = run(&world);
    assert_eq!(result, vec!["docs/hello.txt".to_string()]);
    assert_eq!(write, None);
}

#[test]
fn cache_miss_on_known_head_rebuilds() {
    let mut world = committed_readme();
    world.cache = Some("1111111111111111111111111111111111111111\nffff other.txt\n".to_string());
    let (result, write) = run(&world);
    assert_eq!(result, vec!["README.md".to_string(), "README.md".to_string()]);
    assert!(write.is_some());
}

#[test]
fn index_records_paths_in_order() {
    let mut ix = PathIndex::new();
    ix.add("a".to_string(), "x".to_string());
    ix.add("b".to_string(), "y".to_string());
    ix.add("a".to_string(), "z".to_string());
    assert_eq!(render_cache(&ix, Some("H")), "H\na x\na z\nb y\n");
    assert_eq!(ix.take("a"), vec!["x".to_string(), "z".to_string()]);
}

#[test]
fn rev_list_and_ls_files_parsing() {
    let mut ix = PathIndex::new();
    parse_rev_list_into("c1\nt1 \nb1 dir/file name.txt\n b2\nb3 p\n", &mut ix);
    parse_ls_files_into("100644 b1 0\tdir/file name.txt\nbad line\n100644 b4 0\t\n100755 b5 2\tx.sh\n", &mut ix);
    assert_eq!(render_cache(&ix, None), "NONE\nb1 dir/file name.txt\nb1 dir/file name.txt\nb3 p\nb5 x.sh\n");
}

#[test]
fn cache_round_trip_and_staleness() {
    let mut ix = PathIndex::new();
    ix.add("o1".to_string(), "p 1".to_string());
    ix.add("o2".to_string(), "p2".to_string());
    let text = render_cache(&ix, Some("HEAD1"));
    let back = load_cache(Some(&text), Some("HEAD1")).expect("same head");
    assert_eq!(render_cache(&back, Some("HEAD1")), text);
    assert!(load_cache(Some(&text), Some("HEAD2")).is_none());
    assert!(load_cache(Some(&text), None).is_none());
    assert!(load_cache(None, Some("HEAD1")).is_none());
    assert!(load_cache(Some(""), None).is_none());
    let none_text = render_cache(&ix, None);
    assert!(load_cache(Some(&none_text), None).is_some());
}

#[test]
fn git_output_helpers() {
    assert_eq!(git_output_value(Some("  abc\n")), Some("abc".to_string()));
    assert_eq!(git_output_value(Some(" \n")), None);
    assert_eq!(git_output_value(None), None);
    assert_eq!(cache_file_path("/r/.git"), "/r/.git/git-sshripped/textconv-paths.cache");
}
