use wecraw::crawler::{Stats, Status};
use wecraw::server::{route, Method, Route};
use wecraw::tui::widgets::{chunks, control_panel, general, runtime_parts};
use wecraw::tui::{closes_on, Key};

#[test]
fn routes() {
    assert_eq!(route(Method::Post, "/api/search"), Route::Search);
    assert_eq!(route(Method::Get, "/api/search"), Route::NotFound);
    assert_eq!(route(Method::Get, "/"), Route::Index);
    assert_eq!(route(Method::Get, "/index.html"), Route::Index);
    assert_eq!(route(Method::Get, "/index.js"), Route::Script);
    assert_eq!(route(Method::Post, "/index.js"), Route::NotFound);
    assert_eq!(route(Method::Other, "/"), Route::NotFound);
    assert_eq!(route(Method::Get, "/missing"), Route::NotFound);
}

#[test]
fn route_answers() {
    assert_eq!(Route::Search.content_type(), "application/json");
    assert_eq!(Route::Index.content_type(), "text/html; charset=utf-8");
    assert_eq!(Route::Script.content_type(), "text/javascript; charset=utf-8");
    assert_eq!(Route::NotFound.content_type(), "text/html; charset=utf-8");
    assert_eq!(Route::Search.status(), 200);
    assert_eq!(Route::NotFound.status(), 404);
}

#[test]
fn runtime_split() {
    assert_eq!(runtime_parts(0), (0, 0, 0));
    assert_eq!(runtime_parts(3725), (1, 2, 5));
    assert_eq!(runtime_parts(86399), (23, 59, 59));
    let (h, m, s) = runtime_parts(1_000_000);
    assert_eq!(h * 3600 + m * 60 + s, 1_000_000);
}

#[test]
fn runtime_line() {
    let line = general(3725);
    assert_eq!(line.label, "runtime : ");
    assert_eq!(line.text, "1 h, 2 m, 5 s");
}

#[test]
fn crawler_info_lines() {
    let stats = Stats { chunk_count: 4, chunk_index: 2, visited: 17, indexed: 9, depth: 3, status: Status::Indexing };
    let lines = chunks(stats);
    let shown: Vec<(String, String)> = lines.into_iter().map(|l| (l.label, l.text)).collect();
    assert_eq!(
        shown,
        vec![
            ("  chunk : ".to_string(), "2 / 4".to_string()),
            ("visited : ".to_string(), "17 unique url(s)".to_string()),
            ("indexed : ".to_string(), "9".to_string()),
            ("  depth : ".to_string(), "3".to_string()),
            (" status : ".to_string(), "indexing".to_string()),
        ]
    );
}

#[test]
fn control_panel_text() {
    let panel = control_panel(Stats::default(), 61);
    assert_eq!(panel.general.len(), 1);
    assert_eq!(panel.general[0].text, "0 h, 1 m, 1 s");
    assert_eq!(panel.chunks.len(), 5);
    assert_eq!(panel.chunks[4].text, "downloading");
}

#[test]
fn escape_press_closes() {
    assert!(closes_on(true, Key::Esc));
    assert!(!closes_on(false, Key::Esc));
    assert!(!closes_on(true, Key::Other));
}
