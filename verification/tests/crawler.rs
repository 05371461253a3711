use wecraw::crawler::doc::{document_content, follow_page_links, queue_page, spaced_join};
use wecraw::crawler::download::{Download, Page};
use wecraw::crawler::{CrawlAction, Crawler, Stats, Status};
use wecraw::model::Model;
use wecraw::options::Options;
use wecraw::StringHashSet;

fn options(seed: &str, limit: bool, threads: usize) -> Options {
    Options {
        seed: seed.to_string(),
        serve: None,
        output: "model.json".to_string(),
        ascending: false,
        limit,
        threads,
    }
}

fn ascending_options(seed: &str, threads: usize) -> Options {
    Options {
        seed: seed.to_string(),
        serve: None,
        output: "model.json".to_string(),
        ascending: true,
        limit: false,
        threads,
    }
}

fn page(url: &str, content: &str) -> Page {
    Page { url: url.to_string(), content: content.to_string() }
}

fn urls(a: CrawlAction) -> Vec<String> {
    match a {
        CrawlAction::Download(urls) => urls,
        CrawlAction::Finished => panic!("crawl finished"),
    }
}

#[test]
fn content_is_text_nodes_with_spaces() {
    let html = "<html><head><title>T</title></head><body><p>Hello <b>world</b></p></body></html>";
    assert_eq!(document_content(html), "T Hello  world ");
}

#[test]
fn content_of_empty_page() {
    assert_eq!(document_content(""), "");
}

#[test]
fn queue_page_follows_new_links() {
    let html = "<a href=\"http://a/1\">one</a><a href=\"http://a/2?x=1\">two</a><a>none</a><a href=\"http://a/1\">again</a><a href=\"http://a/3\">three</a>";
    let mut queue = Vec::new();
    let mut visited = StringHashSet::new();
    let mut model = Model::new();
    queue_page(page("http://a/", html), &mut queue, &mut visited, &mut model).unwrap();
    assert_eq!(queue, vec!["http://a/1".to_string(), "http://a/3".to_string()]);
    assert_eq!(visited.len(), 3);
    assert!(visited.contains("http://a/2?x=1"));
    let d = model.document("http://a/").unwrap();
    assert_eq!(d.term_frequency("one"), 1);
    assert_eq!(d.term_frequency("again"), 1);
    assert_eq!(model.document_frequency("three"), Some(1));
}

#[test]
fn queue_page_skips_seen_links() {
    let mut queue = Vec::new();
    let mut visited = StringHashSet::new();
    visited.insert("http://seen".to_string());
    let mut model = Model::new();
    queue_page(page("p", "<a href=\"http://seen\">x</a>"), &mut queue, &mut visited, &mut model).unwrap();
    assert!(queue.is_empty());
    assert_eq!(visited.len(), 1);
    assert_eq!(model.len(), 1);
}

#[test]
fn download_collects_pages() {
    let mut d = Download::new();
    assert!(d.pages().is_empty());
    d.store(page("a", "x"));
    d.store(page("b", "y"));
    assert_eq!(d.pages().len(), 2);
    assert_eq!(d.pages()[1].url, "b");
    d.clear();
    assert!(d.pages().is_empty());
}

#[test]
fn default_stats() {
    let s = Stats::default();
    assert_eq!((s.chunk_count, s.chunk_index, s.visited, s.indexed, s.depth), (0, 0, 0, 0, 0));
    assert_eq!(s.status, Status::Downloading);
}

#[test]
fn status_words() {
    assert_eq!(Status::Downloading.label(), "downloading");
    assert_eq!(Status::Indexing.label(), "indexing");
}

#[test]
fn crawl_starts_at_seed() {
    let mut c = Crawler::new(Stats::default(), Model::new(), options("http://s/", false, 90));
    let first = urls(c.crawl());
    assert_eq!(first, vec!["http://s/".to_string()]);
    assert_eq!(c.queue(), &vec!["http://s/".to_string()]);
    let s = c.stats();
    assert_eq!((s.chunk_count, s.chunk_index, s.depth), (1, 1, 0));
    assert_eq!(s.status, Status::Downloading);
}

#[test]
fn crawl_walks_levels_in_chunks() {
    let mut c = Crawler::new(Stats::default(), Model::new(), options("http://s/", false, 2));
    urls(c.crawl());
    let seed_page = page(
        "http://s/",
        "<a href=\"http://s/a\">a</a><a href=\"http://s/b\">b</a><a href=\"http://s/c\">c</a>",
    );
    let second = urls(c.pages_downloaded(vec![seed_page]));
    assert_eq!(second, vec!["http://s/a".to_string(), "http://s/b".to_string()]);
    let s = c.stats();
    assert_eq!((s.chunk_count, s.chunk_index, s.depth, s.visited, s.indexed), (2, 1, 1, 3, 1));
    let third = urls(c.pages_downloaded(vec![page("http://s/a", "<a href=\"http://s/d\">d</a>")]));
    assert_eq!(third, vec!["http://s/c".to_string()]);
    assert_eq!(c.stats().chunk_index, 2);
    let fourth = urls(c.pages_downloaded(vec![page("http://s/c", "no links")]));
    assert_eq!(fourth, vec!["http://s/d".to_string()]);
    assert_eq!(c.stats().depth, 2);
    match c.pages_downloaded(vec![page("http://s/d", "<a href=\"http://s/a\">back</a>")]) {
        CrawlAction::Finished => {},
        CrawlAction::Download(_) => panic!("nothing left to crawl"),
    }
    let s = c.stats();
    assert_eq!(s.depth, 3);
    assert_eq!(s.status, Status::Indexing);
    assert_eq!(s.indexed, 4);
    assert_eq!(c.model().len(), 4);
}

#[test]
fn limit_keeps_pages_below_the_seed() {
    let mut c = Crawler::new(Stats::default(), Model::new(), options("http://s/", true, 90));
    urls(c.crawl());
    let next = c.pages_downloaded(vec![
        page("http://s/", "<a href=\"http://other/\">o</a>"),
        page("http://elsewhere/", "<a href=\"http://x/\">x</a>"),
    ]);
    assert_eq!(urls(next), vec!["http://other/".to_string()]);
    assert_eq!(c.model().len(), 1);
    assert!(c.model().document("http://elsewhere/").is_none());
    assert_eq!(c.stats().visited, 1);
}

#[test]
fn failed_downloads_end_the_crawl() {
    let mut c = Crawler::new(Stats::default(), Model::new(), options("http://s/", false, 90));
    urls(c.crawl());
    match c.pages_downloaded(Vec::new()) {
        CrawlAction::Finished => {},
        CrawlAction::Download(_) => panic!("nothing was queued"),
    }
    assert_eq!(c.stats().depth, 1);
}

#[test]
fn spaced_join_appends_a_space_to_each_text() {
    assert_eq!(spaced_join(&vec!["a".to_string(), "b c".to_string(), "".to_string()]), "a b c  ");
    assert_eq!(spaced_join(&Vec::new()), "");
}

#[test]
fn follow_links_in_order() {
    let hrefs = vec![
        Some("x".to_string()),
        None,
        Some("y?1".to_string()),
        Some("x".to_string()),
        Some("z".to_string()),
    ];
    let mut queue = vec!["old".to_string()];
    let mut visited = StringHashSet::new();
    visited.insert("z".to_string());
    follow_page_links(&hrefs, &mut queue, &mut visited);
    assert_eq!(queue, vec!["old".to_string(), "x".to_string()]);
    assert_eq!(visited.len(), 3);
    assert!(visited.contains("y?1"));
}

#[test]
fn limit_keeps_subdomains_of_the_seed() {
    let mut c = Crawler::new(Stats::default(), Model::new(), options("https://x.org", true, 90));
    urls(c.crawl());
    c.pages_downloaded(vec![
        page("https://x.org/about", "home"),
        page("https://a.x.org/", "sub"),
        page("https://bx.org/", "other"),
        page("https://x.org.evil.com/", "trick"),
    ]);
    assert!(c.model().document("https://x.org/about").is_some());
    assert!(c.model().document("https://a.x.org/").is_some());
    assert!(c.model().document("https://bx.org/").is_none());
    assert!(c.model().document("https://x.org.evil.com/").is_none());
    assert_eq!(c.model().len(), 2);
}

#[test]
fn ascending_adds_the_seed_path_ancestors() {
    let mut c = Crawler::new(Stats::default(), Model::new(), ascending_options("http://llama.org/hamster/monkey/page.html", 90));
    let first = urls(c.crawl());
    assert_eq!(
        first,
        vec![
            "http://llama.org/hamster/monkey/page.html".to_string(),
            "http://llama.org/hamster/monkey/".to_string(),
            "http://llama.org/hamster/".to_string(),
            "http://llama.org/".to_string(),
        ]
    );
    assert!(c.visited().contains("http://llama.org/hamster/"));
    let next = c.pages_downloaded(vec![page("http://llama.org/", "<a href=\"http://llama.org/hamster/\">up</a>")]);
    match next {
        CrawlAction::Finished => {},
        CrawlAction::Download(_) => panic!("ancestors are not queued again"),
    }
}

#[test]
fn ascending_in_chunks() {
    let mut c = Crawler::new(Stats::default(), Model::new(), ascending_options("http://h/a/b", 2));
    assert_eq!(urls(c.crawl()), vec!["http://h/a/b".to_string(), "http://h/a/".to_string()]);
    assert_eq!(urls(c.pages_downloaded(Vec::new())), vec!["http://h/".to_string()]);
}

#[test]
fn crawler_accepts_zero_threads_until_it_crawls() {
    let c = Crawler::new(Stats::default(), Model::new(), options("http://s/", false, 0));
    assert!(c.queue().is_empty());
    assert_eq!(c.visited().len(), 0);
}

#[test]
fn seed_is_asked_for_again_only_through_a_link() {
    let mut c = Crawler::new(Stats::default(), Model::new(), options("http://s/", false, 90));
    urls(c.crawl());
    let next = urls(c.pages_downloaded(vec![page("http://s/", "<a href=\"http://s/\">self</a>")]));
    assert_eq!(next, vec!["http://s/".to_string()]);
    match c.pages_downloaded(vec![page("http://s/", "<a href=\"http://s/\">self</a>")]) {
        CrawlAction::Finished => {},
        CrawlAction::Download(_) => panic!("the seed is seen by now"),
    }
    assert_eq!(c.model().len(), 1);
    assert_eq!(c.model().document_frequency("self"), Some(1));
}

#[test]
fn crawl_of_a_finite_web_ends_within_its_links() {
    let web = [
        ("http://w/", "<a href=\"http://w/a\">a</a><a href=\"http://w/b\">b</a>"),
        ("http://w/a", "<a href=\"http://w/\">home</a><a href=\"http://w/b\">b</a><a href=\"http://w/c\">c</a>"),
        ("http://w/b", "<a href=\"http://w/a\">a</a><a href=\"http://w/c\">c</a>"),
        ("http://w/c", "<a href=\"http://w/\">home</a>"),
    ];
    let mut c = Crawler::new(Stats::default(), Model::new(), options("http://w/", false, 1));
    let mut action = c.crawl();
    let mut asked = 0usize;
    let mut steps = 0usize;
    while let CrawlAction::Download(list) = action {
        steps += 1;
        assert!(steps <= 20, "the crawl did not end");
        asked += list.len();
        let pages = list
            .iter()
            .filter_map(|u| web.iter().find(|(url, _)| url == u).map(|(url, body)| page(url, body)))
            .collect();
        action = c.pages_downloaded(pages);
    }
    let seen = c.visited().len();
    assert_eq!(seen, 4);
    assert!(asked <= 1 + seen);
    assert_eq!(asked, 5);
    assert_eq!(c.model().len(), 4);
}
