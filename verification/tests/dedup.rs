use hld::cache::Cache;
use hld::cache::should_persist;
use hld::detect::PathMeta;
use hld::detect::detect;
use hld::detect::hash_plan;
use hld::digest::Digest;
use hld::digest::compute_digest;
use hld::identity::FileIdentity;

fn bytes(s: &str) -> Vec<u8> {
    s.as_bytes().to_vec()
}

fn meta(path: &str, len: u64, dev: u64, ino: u64) -> PathMeta {
    PathMeta { path: bytes(path), len, id: FileIdentity { dev, ino } }
}

fn group_contains(group: &Vec<usize>, idx: usize) -> bool {
    group.iter().any(|&x| x == idx)
}

#[test]
fn digest_is_32_bytes() {
    let d = compute_digest(&bytes("x"));
    assert_eq!(d.bytes.len(), 32);
    let e = compute_digest(&bytes(""));
    assert_eq!(e.bytes.len(), 32);
}

#[test]
fn equal_content_equal_digest() {
    let a = compute_digest(&bytes("same content"));
    let b = compute_digest(&bytes("same content"));
    assert!(a.same(&b));
    assert_eq!(a.bytes, b.bytes);
}

#[test]
fn different_content_different_digest() {
    let a = compute_digest(&bytes("x"));
    let b = compute_digest(&bytes("y"));
    assert!(!a.same(&b));
    assert_ne!(a.bytes, b.bytes);
}

#[test]
fn digest_depends_on_input() {
    // The fingerprint is a real hash of the input, not the input itself.
    let d = compute_digest(&bytes("x"));
    assert_ne!(d.bytes, bytes("x"));
    let empty = compute_digest(&Vec::new());
    assert_eq!(empty.bytes.len(), 32);
    assert!(empty.bytes.iter().any(|&b| b != 0));
}

#[test]
fn two_identical_files_form_one_group() {
    // paths = [A, B, C] with contents "x", "x", "y": one group {A, B}.
    let metas = vec![
        meta("/a", 1, 1, 10),
        meta("/b", 1, 1, 11),
        meta("/c", 1, 1, 12),
    ];
    let cache = Cache::new();
    let plan = hash_plan(&cache, &metas);
    assert_eq!(plan, vec![true, true, true]);
    let contents = vec![Some(bytes("x")), Some(bytes("x")), Some(bytes("y"))];
    let groups = detect(&cache, &metas, &contents);
    assert_eq!(groups.len(), 1);
    assert_eq!(groups[0].len(), 2);
    assert!(group_contains(&groups[0], 0));
    assert!(group_contains(&groups[0], 1));
}

#[test]
fn empty_files_never_group() {
    // paths = [D, E] both empty: no group despite identical content.
    let metas = vec![meta("/d", 0, 1, 20), meta("/e", 0, 1, 21)];
    let cache = Cache::new();
    let plan = hash_plan(&cache, &metas);
    assert_eq!(plan, vec![false, false]);
    let contents = vec![None, None];
    let groups = detect(&cache, &metas, &contents);
    assert!(groups.is_empty());
}

#[test]
fn empty_files_excluded_from_mixed_groups() {
    let metas = vec![
        meta("/a", 3, 1, 30),
        meta("/empty1", 0, 1, 31),
        meta("/b", 3, 1, 32),
        meta("/empty2", 0, 1, 33),
    ];
    let cache = Cache::new();
    let contents = vec![Some(bytes("abc")), None, Some(bytes("abc")), None];
    let groups = detect(&cache, &metas, &contents);
    assert_eq!(groups.len(), 1);
    assert_eq!(groups[0].len(), 2);
    assert!(group_contains(&groups[0], 0));
    assert!(group_contains(&groups[0], 2));
}

#[test]
fn unique_contents_give_no_groups() {
    let metas = vec![meta("/a", 1, 1, 40), meta("/b", 1, 1, 41)];
    let cache = Cache::new();
    let contents = vec![Some(bytes("p")), Some(bytes("q"))];
    let groups = detect(&cache, &metas, &contents);
    assert!(groups.is_empty());
}

#[test]
fn shared_identity_shares_digest_without_content() {
    // The second path is a hardlink of the first (same device and inode):
    // its content is never read, yet both group together.
    let metas = vec![meta("/a", 2, 5, 77), meta("/link", 2, 5, 77)];
    let cache = Cache::new();
    let plan = hash_plan(&cache, &metas);
    assert_eq!(plan, vec![true, false]);
    let contents = vec![Some(bytes("hi")), None];
    let groups = detect(&cache, &metas, &contents);
    assert_eq!(groups.len(), 1);
    assert!(group_contains(&groups[0], 0));
    assert!(group_contains(&groups[0], 1));
}

#[test]
fn cached_digest_used_without_reading() {
    // A cached path is never read again: detection trusts the cache even
    // when the entry no longer matches the file's content.
    let stale = compute_digest(&bytes("old content"));
    let fresh = compute_digest(&bytes("new content"));
    let mut cache = Cache::new();
    cache.upsert(&bytes("/a"), &stale);
    let metas = vec![meta("/a", 11, 1, 50), meta("/b", 11, 1, 51)];
    let plan = hash_plan(&cache, &metas);
    assert_eq!(plan, vec![false, true]);
    // No content is supplied for /a; /b really holds "old content".
    let contents = vec![None, Some(bytes("old content"))];
    let groups = detect(&cache, &metas, &contents);
    assert_eq!(groups.len(), 1);
    assert!(group_contains(&groups[0], 0));
    assert!(group_contains(&groups[0], 1));
    // Had /a been rehashed from its current content, no group would form.
    assert!(!stale.same(&fresh));
}

#[test]
fn lookup_finds_inserted_digest() {
    let mut cache = Cache::new();
    let d = compute_digest(&bytes("v"));
    cache.upsert(&bytes("/p"), &d);
    let got = cache.lookup(&bytes("/p")).expect("entry must exist");
    assert!(got.same(&d));
    assert!(cache.lookup(&bytes("/q")).is_none());
}

#[test]
fn prune_drops_dead_entries() {
    let mut cache = Cache::new();
    cache.upsert(&bytes("/alive"), &compute_digest(&bytes("a")));
    cache.upsert(&bytes("/dead"), &compute_digest(&bytes("d")));
    let mut alive = Vec::new();
    for i in 0..cache.entry_count() {
        alive.push(cache.path_at(i) == &bytes("/alive"));
    }
    let changed = cache.prune(&alive);
    assert!(changed);
    assert!(cache.lookup(&bytes("/alive")).is_some());
    assert!(cache.lookup(&bytes("/dead")).is_none());
}

#[test]
fn prune_of_all_alive_changes_nothing() {
    let mut cache = Cache::new();
    cache.upsert(&bytes("/a"), &compute_digest(&bytes("a")));
    let changed = cache.prune(&vec![true]);
    assert!(!changed);
    assert!(cache.lookup(&bytes("/a")).is_some());
}

#[test]
fn refresh_takes_cached_and_computes_missing() {
    let cached_digest = compute_digest(&bytes("kept"));
    let mut cache = Cache::new();
    cache.upsert(&bytes("/old"), &cached_digest);
    let requested = vec![bytes("/old"), bytes("/new")];
    // /old is cached, so no content is supplied for it.
    let contents = vec![None, Some(bytes("fresh"))];
    let (view, grew) = cache.refresh(&requested, &contents);
    assert!(grew);
    let got_old = view.lookup(&bytes("/old")).expect("cached path in view");
    assert!(got_old.same(&cached_digest));
    let got_new = view.lookup(&bytes("/new")).expect("new path in view");
    assert!(got_new.same(&compute_digest(&bytes("fresh"))));
    // The cache itself now holds both entries.
    assert!(cache.lookup(&bytes("/old")).is_some());
    assert!(cache.lookup(&bytes("/new")).is_some());
}

#[test]
fn refresh_of_cached_paths_does_not_grow() {
    let mut cache = Cache::new();
    cache.upsert(&bytes("/a"), &compute_digest(&bytes("a")));
    let requested = vec![bytes("/a")];
    let contents = vec![None];
    let (view, grew) = cache.refresh(&requested, &contents);
    assert!(!grew);
    assert!(view.lookup(&bytes("/a")).is_some());
}

#[test]
fn pruned_path_absent_after_refresh() {
    // A dead entry is gone after the run even though the run never asked
    // for its path.
    let mut cache = Cache::new();
    cache.upsert(&bytes("/gone"), &compute_digest(&bytes("g")));
    cache.upsert(&bytes("/kept"), &compute_digest(&bytes("k")));
    let mut alive = Vec::new();
    for i in 0..cache.entry_count() {
        alive.push(cache.path_at(i) != &bytes("/gone"));
    }
    cache.prune(&alive);
    let requested = vec![bytes("/other")];
    let contents = vec![Some(bytes("o"))];
    cache.refresh(&requested, &contents);
    assert!(cache.lookup(&bytes("/gone")).is_none());
    assert!(cache.lookup(&bytes("/kept")).is_some());
    assert!(cache.lookup(&bytes("/other")).is_some());
}

#[test]
fn dry_run_never_persists() {
    assert!(!should_persist(true, true));
    assert!(!should_persist(false, true));
    assert!(should_persist(true, false));
    assert!(!should_persist(false, false));
}

#[test]
fn detection_ignores_run_mode() {
    // Detection takes no run mode: a preview sees exactly the groups a
    // real run would act on.
    let metas = vec![meta("/a", 1, 1, 60), meta("/b", 1, 1, 61)];
    let cache = Cache::new();
    let contents = vec![Some(bytes("z")), Some(bytes("z"))];
    let first = detect(&cache, &metas, &contents);
    let second = detect(&cache, &metas, &contents);
    assert_eq!(first, second);
    assert_eq!(first.len(), 1);
}

#[test]
fn groups_project_to_paths() {
    let metas = vec![
        meta("/a", 1, 1, 70),
        meta("/b", 1, 1, 71),
        meta("/c", 1, 1, 72),
    ];
    let cache = Cache::new();
    let contents = vec![Some(bytes("w")), Some(bytes("v")), Some(bytes("w"))];
    let groups = detect(&cache, &metas, &contents);
    let paths = hld::detect::group_paths(&metas, &groups);
    assert_eq!(paths.len(), 1);
    assert_eq!(paths[0].len(), 2);
    assert!(paths[0].contains(&bytes("/a")));
    assert!(paths[0].contains(&bytes("/c")));
}

#[test]
fn duplicate_requests_are_read_once() {
    // The same path requested twice costs one computation: the second
    // request is answered from the entry the first one recorded.
    let mut cache = Cache::new();
    let requested = vec![bytes("/same"), bytes("/same")];
    let contents = vec![Some(bytes("body")), None];
    let (view, grew) = cache.refresh(&requested, &contents);
    assert!(grew);
    let got = view.lookup(&bytes("/same")).expect("requested path in view");
    assert!(got.same(&compute_digest(&bytes("body"))));
}
