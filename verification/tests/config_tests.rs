use kubenv::config::{str_lex_lt, KubeConfig};

#[test]
fn profile_default_name_is_digest_prefix() {
    let digest = "2cf24dba5fb0a30e26e83b2ac5b9e29e1b161e5c1fa7425e73043362938b9824";
    let c = KubeConfig::new("/p/x.kubeconfig".to_string(), digest.to_string(), None);
    assert_eq!(c.name(), "2cf24dba");
    assert_eq!(c.hash(), digest);
    assert_eq!(c.path(), "/p/x.kubeconfig");
}

#[test]
fn profile_explicit_name_is_kept() {
    let c = KubeConfig::new(
        "/p/work.kubeconfig".to_string(),
        "0123456789abcdef".to_string(),
        Some("work".to_string()),
    );
    assert_eq!(c.name(), "work");
    let d = c.clone();
    assert_eq!(d.name(), "work");
    assert_eq!(d.hash(), "0123456789abcdef");
}

#[test]
fn lexicographic_order_on_names() {
    assert!(str_lex_lt("a", "b"));
    assert!(str_lex_lt("a", "ab"));
    assert!(str_lex_lt("ab", "b"));
    assert!(!str_lex_lt("b", "a"));
    assert!(!str_lex_lt("a", "a"));
    assert!(str_lex_lt("", "a"));
    assert!(!str_lex_lt("a", ""));
    assert!(str_lex_lt("A", "a"));
    // names compare by code point, not by locale
    assert!(str_lex_lt("z", "\u{e9}"));
    assert!(!str_lex_lt("\u{e9}", "z"));
}
