use wecraw::url::{ancestors, on_site};

#[test]
fn sites_by_host() {
    assert!(on_site("https://x.org/a", "https://x.org"));
    assert!(on_site("https://a.b.x.org/", "https://x.org/start"));
    assert!(on_site("http://x.org:8080/", "https://x.org"));
    assert!(!on_site("https://bx.org/", "https://x.org"));
    assert!(!on_site("https://x.org.evil.com/", "https://x.org"));
    assert!(!on_site("/relative/link", "https://x.org"));
    assert!(!on_site("https://x.org/", "not a url"));
}

#[test]
fn path_ancestors() {
    assert_eq!(
        ancestors("http://llama.org/hamster/monkey/page.html"),
        vec![
            "http://llama.org/hamster/monkey/".to_string(),
            "http://llama.org/hamster/".to_string(),
            "http://llama.org/".to_string(),
        ]
    );
    assert_eq!(ancestors("http://h/a/"), vec!["http://h/".to_string()]);
    assert_eq!(ancestors("http://h/a?x=/y/z"), vec!["http://h/".to_string()]);
    assert!(ancestors("http://h").is_empty());
    assert!(ancestors("no scheme/at/all").is_empty());
}
