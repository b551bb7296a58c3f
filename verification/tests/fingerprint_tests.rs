use hasty::cache::{get_cache_dir, Cache, LocalCache};
use hasty::fingerprint::Fingerprint;
use hasty::{CommandConfig, Script};

fn script(package: &str, command: &str) -> Script {
    Script::new(
        CommandConfig {
            command: String::from(command),
            dependencies: None,
            files: None,
            output: None,
        },
        &String::from("/ws"),
        package,
    )
}

#[test]
fn digest_of_known_bytes() {
    // SHA-256("abc") is the standard test vector.
    let mut fp = Fingerprint::new();
    fp.compute_from_contents(&vec![Some(b"abc".to_vec())]);
    assert_eq!(
        fp.string(),
        "ba7816bf8f01cfea414140de5dae2223b00361a396177a9cb410ff61f20015ad"
    );
}

#[test]
fn unreadable_inputs_are_skipped_and_hashes_joined() {
    let mut fp = Fingerprint::new();
    fp.compute_from_contents(&vec![Some(b"abc".to_vec()), None, Some(b"abc".to_vec())]);
    assert_eq!(
        fp.string(),
        "ba7816bf8f01cfea414140de5dae2223b00361a396177a9cb410ff61f20015ad,\
         ba7816bf8f01cfea414140de5dae2223b00361a396177a9cb410ff61f20015ad"
            .replace(" ", "")
    );
}

#[test]
fn an_already_computed_fingerprint_is_kept() {
    let mut fp = Fingerprint::new();
    fp.compute_from_contents(&vec![Some(b"abc".to_vec())]);
    let first = fp.string();
    fp.compute_from_contents(&vec![Some(b"xyz".to_vec())]);
    assert_eq!(fp.string(), first);
}

#[test]
fn empty_fingerprint_is_the_empty_string() {
    let fp = Fingerprint::new();
    assert_eq!(fp.string(), "");
}

#[test]
fn fingerprints_compare_by_their_strings() {
    let mut a = Fingerprint::new();
    a.compute_from_contents(&vec![Some(b"abc".to_vec())]);
    let mut b = Fingerprint::new();
    b.compute_from_contents(&vec![Some(b"abc".to_vec())]);
    let mut c = Fingerprint::new();
    c.compute_from_contents(&vec![Some(b"def".to_vec())]);
    assert!(a == b);
    assert!(!(a == c));
}

#[test]
fn cache_dir_sits_under_the_working_directory() {
    assert_eq!(get_cache_dir(&String::from("/ws")), "/ws/.hasty/cache");
}

#[test]
fn cache_path_hex_encodes_the_task_id() {
    // "root#build" in lowercase hex is 726f6f74236275696c64.
    let cache = LocalCache::with_entries(&String::from("/ws"), vec![]);
    let s = script("root", "build");
    let mut fp = Fingerprint::new();
    fp.compute_from_contents(&vec![Some(b"abc".to_vec())]);
    let path = cache.cache_path(&s, &fp);
    assert_eq!(
        path,
        format!(
            "/ws/.hasty/cache/726f6f74236275696c64/{}",
            "ba7816bf8f01cfea414140de5dae2223b00361a396177a9cb410ff61f20015ad"
        )
    );
}

#[test]
fn cache_reports_only_known_entries() {
    let s = script("root", "build");
    let mut fp = Fingerprint::new();
    fp.compute_from_contents(&vec![Some(b"abc".to_vec())]);
    let empty = <LocalCache as Cache>::new(&String::from("/ws"));
    assert!(!empty.cached(&s, &fp));
    let probe = LocalCache::with_entries(&String::from("/ws"), vec![]);
    let full = LocalCache::with_entries(
        &String::from("/ws"),
        vec![probe.cache_path(&s, &fp)],
    );
    assert!(full.cached(&s, &fp));
}
