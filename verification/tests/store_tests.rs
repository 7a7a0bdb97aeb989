use kubenv::errors::KubenvError;
use kubenv::store::{KubEnv, ScanEntry};

const HELLO_DIGEST: &str = "2cf24dba5fb0a30e26e83b2ac5b9e29e1b161e5c1fa7425e73043362938b9824";

fn entry(file_name: &str, content: &[u8]) -> ScanEntry {
    ScanEntry { file_name: file_name.to_string(), is_file: true, content: Some(content.to_vec()) }
}

fn store() -> KubEnv {
    KubEnv::new(Some("/tmp/profiles".to_string()), Some("/tmp/base".to_string())).unwrap()
}

fn names(st: &KubEnv) -> Vec<String> {
    st.configs().iter().map(|c| c.name().to_string()).collect()
}

#[test]
fn new_store_is_empty() {
    let st = store();
    assert!(st.configs().is_empty());
    assert!(st.current_config().is_none());
    assert_eq!(st.profile_dir(), "/tmp/profiles");
    assert_eq!(st.active_config_path(), "/tmp/base/config");
}

#[test]
fn default_directories_resolve_under_home() {
    match KubEnv::new(None, None) {
        Ok(st) => {
            assert!(st.profile_dir().ends_with("/.kube/kubenv"));
            assert!(st.active_config_path().ends_with("/.kube/config"));
        }
        Err(e) => assert_eq!(e, KubenvError::DirectoryResolution),
    }
}

#[test]
fn sync_indexes_managed_files() {
    let mut st = store();
    st.sync(vec![entry("a.kubeconfig", b"one"), entry("b.kubeconfig", b"two")], None);
    assert_eq!(names(&st), vec!["a", "b"]);
    let a = st.get_content("a").unwrap();
    assert_eq!(a.path(), "/tmp/profiles/a.kubeconfig");
    assert_eq!(a.hash().len(), 64);
}

#[test]
fn sync_skips_non_files_unreadable_and_unmanaged() {
    let mut st = store();
    st.sync(
        vec![
            ScanEntry {
                file_name: "sub.kubeconfig".to_string(),
                is_file: false,
                content: Some(b"dir".to_vec()),
            },
            ScanEntry {
                file_name: "locked.kubeconfig".to_string(),
                is_file: true,
                content: None,
            },
            entry("notes.txt", b"stray"),
            entry("short", b"no suffix"),
            entry("ok.kubeconfig", b"kept"),
        ],
        None,
    );
    assert_eq!(names(&st), vec!["ok"]);
}

#[test]
fn listing_is_sorted_regardless_of_scan_order() {
    let mut st = store();
    st.sync(
        vec![
            entry("zeta.kubeconfig", b"z"),
            entry("alpha.kubeconfig", b"a"),
            entry("mid.kubeconfig", b"m"),
        ],
        None,
    );
    assert_eq!(names(&st), vec!["alpha", "mid", "zeta"]);

    let mut st2 = store();
    st2.sync(
        vec![
            entry("alpha.kubeconfig", b"a"),
            entry("mid.kubeconfig", b"m"),
            entry("zeta.kubeconfig", b"z"),
        ],
        None,
    );
    assert_eq!(names(&st2), vec!["alpha", "mid", "zeta"]);
}

#[test]
fn duplicate_name_in_scan_first_seen_wins() {
    let mut st = store();
    st.sync(vec![entry("a.kubeconfig", b"first"), entry("a.kubeconfig", b"second")], None);
    let list = st.configs();
    assert_eq!(list.len(), 1);
    assert_eq!(list[0].hash(), sha256::digest(b"first".as_slice()));
}

#[test]
fn duplicate_content_in_scan_first_seen_wins() {
    let mut st = store();
    st.sync(vec![entry("a.kubeconfig", b"same"), entry("b.kubeconfig", b"same")], None);
    assert_eq!(names(&st), vec!["a"]);
}

#[test]
fn sync_rebuild_drops_deleted_file() {
    let mut st = store();
    st.sync(vec![entry("a.kubeconfig", b"one"), entry("b.kubeconfig", b"two")], None);
    assert_eq!(names(&st), vec!["a", "b"]);
    st.sync(vec![entry("b.kubeconfig", b"two")], None);
    assert_eq!(names(&st), vec!["b"]);
}

#[test]
fn current_config_matches_active_digest() {
    let mut st = store();
    st.sync(
        vec![entry("a.kubeconfig", b"one"), entry("b.kubeconfig", b"two")],
        Some(b"one".to_vec()),
    );
    assert_eq!(st.current_config().unwrap().name(), "a");
    assert_eq!(names(&st), vec!["a", "b"]);
}

#[test]
fn current_config_none_when_active_unknown_or_unmatched() {
    let mut st = store();
    st.sync(vec![entry("a.kubeconfig", b"one")], None);
    assert!(st.current_config().is_none());
    st.sync(vec![entry("a.kubeconfig", b"one")], Some(b"other".to_vec()));
    assert!(st.current_config().is_none());
}

#[test]
fn import_resolves_explicit_name() {
    let mut st = store();
    st.sync(vec![], None);
    let out = st.set_content(Some("work".to_string()), b"cluster").unwrap();
    assert_eq!(out.name, "work");
    assert_eq!(out.path, "/tmp/profiles/work.kubeconfig");
}

#[test]
fn import_without_name_uses_digest() {
    let st = store();
    let out = st.set_content(None, b"hello").unwrap();
    assert_eq!(out.name, HELLO_DIGEST);
    assert_eq!(out.path, format!("/tmp/profiles/{}.kubeconfig", HELLO_DIGEST));
}

#[test]
fn import_duplicate_content_is_rejected() {
    let mut st = store();
    st.sync(vec![entry("a.kubeconfig", b"payload")], None);
    let r = st.set_content(None, b"payload");
    assert_eq!(r.unwrap_err(), KubenvError::DuplicateContent);
}

#[test]
fn import_duplicate_name_is_rejected() {
    let mut st = store();
    st.sync(vec![entry("a.kubeconfig", b"one")], None);
    let r = st.set_content(Some("a".to_string()), b"fresh");
    assert_eq!(r.unwrap_err(), KubenvError::DuplicateName);
}

#[test]
fn import_then_sync_then_export_round_trip() {
    let mut st = store();
    st.sync(vec![], None);
    let bytes = b"round trip payload";
    let out = st.set_content(Some("rt".to_string()), bytes).unwrap();

    // the caller writes `bytes` to `out.path`; the next scan sees it
    st.sync(vec![entry("rt.kubeconfig", bytes)], None);
    let c = st.get_content(&out.name).unwrap();
    assert_eq!(c.name(), "rt");
    assert_eq!(c.path(), out.path);
    assert_eq!(c.hash(), sha256::digest(bytes.as_slice()));
}

#[test]
fn apply_missing_name_is_not_found() {
    let mut st = store();
    st.sync(vec![], None);
    assert_eq!(st.apply("missing", None).unwrap_err(), KubenvError::NotFound);
}

#[test]
fn apply_copies_profile_when_not_active() {
    let mut st = store();
    st.sync(vec![entry("a.kubeconfig", b"one"), entry("b.kubeconfig", b"two")], None);
    let src = st.apply("a", Some(b"two")).unwrap();
    assert_eq!(src, "/tmp/profiles/a.kubeconfig");
    let src2 = st.apply("a", None).unwrap();
    assert_eq!(src2, "/tmp/profiles/a.kubeconfig");
}

#[test]
fn apply_twice_is_rejected_second_time() {
    let mut st = store();
    st.sync(vec![entry("a.kubeconfig", b"one")], None);
    // first apply succeeds: the active bytes differ
    let src = st.apply("a", None).unwrap();
    assert_eq!(src, "/tmp/profiles/a.kubeconfig");
    // the caller copied the profile's bytes onto the active path;
    // a second apply sees them there and fails
    let r = st.apply("a", Some(b"one"));
    assert_eq!(r.unwrap_err(), KubenvError::AlreadyApplied);
}

#[test]
fn remove_returns_backing_path() {
    let mut st = store();
    st.sync(vec![entry("gone.kubeconfig", b"bye")], None);
    assert_eq!(st.remove("gone").unwrap(), "/tmp/profiles/gone.kubeconfig");
    assert_eq!(st.remove("other").unwrap_err(), KubenvError::NotFound);
}

#[test]
fn export_missing_name_is_not_found() {
    let mut st = store();
    st.sync(vec![entry("a.kubeconfig", b"one")], None);
    assert_eq!(st.get_content("b").unwrap_err(), KubenvError::NotFound);
}

#[test]
fn uniqueness_across_imports() {
    let mut st = store();
    st.sync(vec![entry("a.kubeconfig", b"one"), entry("b.kubeconfig", b"two")], None);
    // conflicting imports fail and the store is unchanged
    assert!(st.set_content(Some("a".to_string()), b"three").is_err());
    assert!(st.set_content(Some("c".to_string()), b"one").is_err());
    assert_eq!(names(&st), vec!["a", "b"]);
    let list = st.configs();
    assert_ne!(list[0].hash(), list[1].hash());
}
