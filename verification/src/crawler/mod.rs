pub mod doc;
pub mod download;

use vstd::prelude::*;
use vstd::hash_set::StringHashSet;
use vstd::string::StringExecFns;

use crate::crawler::doc::{css_selector_rejected, follow_links, html_text_nodes, page_links, queue_page, spaced_text};
use crate::crawler::download::Page;
use crate::model::{indexed, Model, ModelView};
use crate::options::Options;
use crate::text::views;
use crate::url::{ancestors, lemma_ancestors, on_site, same_site, url_ancestors};

verus! {

broadcast use vstd::seq_lib::group_seq_properties;

/// What the crawler is doing at the moment.
#[derive(Clone, Copy, Debug, PartialEq, Eq, Structural)]
pub enum Status {
    Downloading,
    Indexing,
}

impl Status {
    /// The word shown for the status.
    pub open spec fn spec_label(self) -> Seq<char> {
        match self {
            Status::Downloading => "downloading"@,
            Status::Indexing => "indexing"@,
        }
    }

    /// The word shown for the status.
    pub fn label(&self) -> (s: String)
        ensures
            s@ == self.spec_label(),
    {
        match self {
            Status::Downloading => String::from_str("downloading"),
            Status::Indexing => String::from_str("indexing"),
        }
    }
}

/// Progress figures of a crawl.
#[derive(Clone, Copy, Debug)]
pub struct Stats {
    /// Number of chunks of the current level.
    pub chunk_count: usize,
    /// Position (from 1) of the chunk being worked on.
    pub chunk_index: usize,
    /// Number of distinct link targets seen.
    pub visited: usize,
    /// Number of indexed pages.
    pub indexed: usize,
    /// Number of levels finished.
    pub depth: usize,
    pub status: Status,
}

impl Default for Stats {
    fn default() -> (s: Stats)
        ensures
            s.chunk_count == 0,
            s.chunk_index == 0,
            s.visited == 0,
            s.indexed == 0,
            s.depth == 0,
            s.status == Status::Downloading,
    {
        Stats { chunk_count: 0, chunk_index: 0, visited: 0, indexed: 0, depth: 0, status: Status::Downloading }
    }
}

/// What the caller is to do next for the crawler.
pub enum CrawlAction {
    /// Download these URLs and hand the pages that arrive to `pages_downloaded`.
    Download(Vec<String>),
    /// The crawl is over.
    Finished,
}

/// The URLs of an action, if it asks for downloads.
pub open spec fn action_urls(a: CrawlAction) -> Option<Seq<Seq<char>>> {
    match a {
        CrawlAction::Download(urls) => Some(views(urls@)),
        CrawlAction::Finished => None,
    }
}

/// Number of chunks of at most `n` URLs that `len` URLs make.
pub open spec fn chunk_count(len: nat, n: nat) -> nat {
    if len % n == 0 { len / n } else { len / n + 1 }
}

/// Law: `chunk_count(len, n)` chunks of `n` are enough for `len` URLs, and one
/// fewer is not (for `n > 0`).
pub proof fn lemma_chunk_count(len: nat, n: nat)
    requires
        n > 0,
    ensures
        len <= chunk_count(len, n) * n,
        chunk_count(len, n) > 0 ==> (chunk_count(len, n) - 1) * n < len,
{
    let q = len / n;
    let r = len % n;
    assert(len == q * n + r && 0 <= r < n) by (nonlinear_arith)
        requires
            n > 0,
            q == len / n,
            r == len % n,
    {
    }
    if r == 0 {
        assert(q > 0 ==> (q - 1) * n < len) by (nonlinear_arith)
            requires
                len == q * n,
                n > 0,
        {
        }
    } else {
        assert((q + 1) * n == q * n + n) by (nonlinear_arith);
    }
}

/// The chunk of at most `n` URLs of `queue` that begins at `start`.
pub open spec fn chunk_at(queue: Seq<Seq<char>>, start: nat, n: nat) -> Seq<Seq<char>> {
    queue.subrange(start as int, if start + n < queue.len() { (start + n) as int } else { queue.len() as int })
}

/// Whether a page at `url` is indexed: always, or with `limit` only where its
/// host is the seed's host or a subdomain of it.
pub open spec fn in_scope(limit: bool, seed: Seq<char>, url: Seq<char>) -> bool {
    (limit && same_site(url, seed)) || !limit
}

/// What indexing changes: the links seen, the URLs queued for the next level,
/// the model, and the model's insertion count.
pub struct IndexState {
    pub visited: Set<Seq<char>>,
    pub queue: Seq<Seq<char>>,
    pub model: ModelView,
    pub insertions: nat,
}

/// Indexing one page; a model that has taken `usize::MAX` insertions takes no more
/// pages, and nothing happens where the link selector is rejected.
pub open spec fn index_page(s: IndexState, url: Seq<char>, content: Seq<char>) -> IndexState {
    if s.insertions >= usize::MAX || css_selector_rejected("a"@) {
        s
    } else {
        let (v, q) = follow_links(page_links(content), s.visited, s.queue);
        IndexState {
            visited: v,
            queue: q,
            model: indexed(s.model, url, spaced_text(html_text_nodes(content))),
            insertions: s.insertions + 1,
        }
    }
}

/// Indexing the pages in scope, in order.
pub open spec fn index_pages(s: IndexState, pages: Seq<Page>, limit: bool, seed: Seq<char>) -> IndexState
    decreases pages.len(),
{
    if pages.len() == 0 {
        s
    } else {
        let before = index_pages(s, pages.drop_last(), limit, seed);
        let page = pages.last();
        if in_scope(limit, seed, page.url@) {
            index_page(before, page.url@, page.content@)
        } else {
            before
        }
    }
}

/// From `s0` to `s1` the seen links only grew, by finitely many, and the queue
/// only grew, by URLs that were not seen at `s0`, are seen at `s1`, hold no `?`,
/// and are distinct.
pub open spec fn grows(s0: IndexState, s1: IndexState) -> bool {
    &&& s0.queue.is_prefix_of(s1.queue)
    &&& s0.visited.subset_of(s1.visited)
    &&& s0.visited.finite() ==> s1.visited.finite()
    &&& forall|i: int| s0.queue.len() <= i < s1.queue.len() ==> {
        &&& !s0.visited.contains(#[trigger] s1.queue[i])
        &&& s1.visited.contains(s1.queue[i])
        &&& !s1.queue[i].contains('?')
    }
    &&& s1.queue.subrange(s0.queue.len() as int, s1.queue.len() as int).no_duplicates()
}

/// Following links only queues URLs that were new, each once, none with a `?`.
pub proof fn lemma_follow_links_grows(
    hrefs: Seq<Option<Seq<char>>>,
    visited: Set<Seq<char>>,
    queue: Seq<Seq<char>>,
    model: ModelView,
    insertions: nat,
)
    ensures
        grows(
            IndexState { visited, queue, model, insertions },
            IndexState { visited: follow_links(hrefs, visited, queue).0, queue: follow_links(hrefs, visited, queue).1, model, insertions },
        ),
    decreases hrefs.len(),
{
    let s0 = IndexState { visited, queue, model, insertions };
    if hrefs.len() > 0 {
        lemma_follow_links_grows(hrefs.drop_last(), visited, queue, model, insertions);
        let (v, q) = follow_links(hrefs.drop_last(), visited, queue);
        let (v2, q2) = follow_links(hrefs, visited, queue);
        let end = IndexState { visited: v2, queue: q2, model, insertions };
        if let Some(h) = hrefs.last() {
            if !v.contains(h) && !h.contains('?') {
                assert(q2 == q.push(h));
                assert(q2.subrange(queue.len() as int, q2.len() as int) =~= q.subrange(queue.len() as int, q.len() as int).push(h));
                assert forall|i: int| queue.len() <= i < q.len() implies #[trigger] q[i] != h by {
                    assert(v.contains(q[i]));
                }
            }
        }
        assert(grows(s0, end));
    } else {
        assert(queue.subrange(queue.len() as int, queue.len() as int) =~= Seq::<Seq<char>>::empty());
    }
}

/// Growth in two steps is growth.
pub proof fn lemma_grows_trans(s0: IndexState, s1: IndexState, s2: IndexState)
    requires
        grows(s0, s1),
        grows(s1, s2),
    ensures
        grows(s0, s2),
{
    let a = s2.queue.subrange(s0.queue.len() as int, s2.queue.len() as int);
    assert forall|i: int, j: int| 0 <= i < a.len() && 0 <= j < a.len() && i != j implies a[i] != a[j] by {
        let k = i + s0.queue.len();
        let l = j + s0.queue.len();
        assert(a[i] == s2.queue[k]);
        assert(a[j] == s2.queue[l]);
        if k < s1.queue.len() && l < s1.queue.len() {
            assert(s2.queue[k] == s1.queue[k]);
            assert(s2.queue[l] == s1.queue[l]);
            let b = s1.queue.subrange(s0.queue.len() as int, s1.queue.len() as int);
            assert(b[i] == s1.queue[k]);
            assert(b[j] == s1.queue[l]);
        } else if k >= s1.queue.len() && l >= s1.queue.len() {
            let c = s2.queue.subrange(s1.queue.len() as int, s2.queue.len() as int);
            assert(c[k - s1.queue.len()] == s2.queue[k]);
            assert(c[l - s1.queue.len()] == s2.queue[l]);
        } else if k < s1.queue.len() {
            assert(s2.queue[k] == s1.queue[k]);
            assert(s1.visited.contains(s1.queue[k]));
        } else {
            assert(s2.queue[l] == s1.queue[l]);
            assert(s1.visited.contains(s1.queue[l]));
        }
    }
    assert forall|i: int| s0.queue.len() <= i < s2.queue.len() implies {
        &&& !s0.visited.contains(#[trigger] s2.queue[i])
        &&& s2.visited.contains(s2.queue[i])
        &&& !s2.queue[i].contains('?')
    } by {
        if i < s1.queue.len() {
            assert(s2.queue[i] == s1.queue[i]);
        }
    }
}

/// Indexing pages only queues URLs that were new, each once, none with a `?`.
pub proof fn lemma_index_pages_grows(s: IndexState, pages: Seq<Page>, limit: bool, seed: Seq<char>)
    ensures
        grows(s, index_pages(s, pages, limit, seed)),
    decreases pages.len(),
{
    if pages.len() == 0 {
        assert(s.queue.subrange(s.queue.len() as int, s.queue.len() as int) =~= Seq::<Seq<char>>::empty());
    } else {
        lemma_index_pages_grows(s, pages.drop_last(), limit, seed);
        let before = index_pages(s, pages.drop_last(), limit, seed);
        let page = pages.last();
        let after = index_pages(s, pages, limit, seed);
        if in_scope(limit, seed, page.url@) && !(before.insertions >= usize::MAX || css_selector_rejected("a"@)) {
            lemma_follow_links_grows(page_links(page.content@), before.visited, before.queue, before.model, before.insertions);
            assert(grows(before, after));
            lemma_grows_trans(s, before, after);
        }
    }
}

/// Law: indexing pages adds to the model only pages in scope; with `limit`, only
/// pages on the seed's host or one of its subdomains.
pub proof fn lemma_index_pages_in_scope(s: IndexState, pages: Seq<Page>, limit: bool, seed: Seq<char>)
    ensures
        forall|u: Seq<char>|
            #[trigger] index_pages(s, pages, limit, seed).model.docs.contains_key(u) && !s.model.docs.contains_key(u)
                ==> in_scope(limit, seed, u),
    decreases pages.len(),
{
    if pages.len() > 0 {
        lemma_index_pages_in_scope(s, pages.drop_last(), limit, seed);
        let before = index_pages(s, pages.drop_last(), limit, seed);
        let after = index_pages(s, pages, limit, seed);
        let page = pages.last();
        assert forall|u: Seq<char>| #[trigger] after.model.docs.contains_key(u) && !s.model.docs.contains_key(u)
            implies in_scope(limit, seed, u) by {
            if !before.model.docs.contains_key(u) {
                assert(u == page.url@);
            }
        }
    }
}

/// The URLs queued so far are distinct, have all been seen, hold no `?`, and
/// end with the URLs queued for the next level.
pub open spec fn queue_record_sound(
    queued: Seq<Seq<char>>,
    visited: Set<Seq<char>>,
    next_queue: Seq<Seq<char>>,
) -> bool {
    &&& queued.no_duplicates()
    &&& forall|i: int| 0 <= i < queued.len() ==> visited.contains(#[trigger] queued[i]) && !queued[i].contains('?')
    &&& next_queue.len() <= queued.len()
    &&& next_queue == queued.subrange(queued.len() - next_queue.len(), queued.len() as int)
}

/// Adding what indexing queued to a sound record keeps it sound.
pub proof fn lemma_record_extends(queued: Seq<Seq<char>>, s0: IndexState, s1: IndexState)
    requires
        queue_record_sound(queued, s0.visited, s0.queue),
        grows(s0, s1),
    ensures
        queue_record_sound(
            queued + s1.queue.subrange(s0.queue.len() as int, s1.queue.len() as int),
            s1.visited,
            s1.queue,
        ),
{
    let added = s1.queue.subrange(s0.queue.len() as int, s1.queue.len() as int);
    let h = queued + added;
    assert forall|i: int, j: int| 0 <= i < h.len() && 0 <= j < h.len() && i != j implies h[i] != h[j] by {
        if i < queued.len() && j < queued.len() {
        } else if i >= queued.len() && j >= queued.len() {
            assert(h[i] == added[i - queued.len()]);
            assert(h[j] == added[j - queued.len()]);
        } else if i < queued.len() {
            assert(s0.visited.contains(queued[i]));
            assert(h[j] == s1.queue[j - queued.len() + s0.queue.len()]);
        } else {
            assert(s0.visited.contains(queued[j]));
            assert(h[i] == s1.queue[i - queued.len() + s0.queue.len()]);
        }
    }
    assert forall|i: int| 0 <= i < h.len() implies s1.visited.contains(#[trigger] h[i]) && !h[i].contains('?') by {
        if i < queued.len() {
            assert(s0.visited.contains(queued[i]));
        } else {
            assert(h[i] == s1.queue[i - queued.len() + s0.queue.len()]);
        }
    }
    assert(s1.queue =~= h.subrange(h.len() - s1.queue.len(), h.len() as int)) by {
        assert forall|k: int| 0 <= k < s1.queue.len() implies s1.queue[k] == h[h.len() - s1.queue.len() + k] by {
            if k < s0.queue.len() {
                assert(s0.queue[k] == s1.queue[k]);
                assert(s0.queue[k] == queued[queued.len() - s0.queue.len() + k]);
            }
        }
    }
}

/// Every URL asked for since the crawl started, in order: the first is the
/// seed, a URL is asked for twice only where the seed is asked for again, and
/// only the seed may hold a `?`.
pub open spec fn download_record_sound(requested: Seq<Seq<char>>, seed: Seq<char>) -> bool {
    &&& requested.len() > 0 ==> requested[0] == seed
    &&& forall|i: int, j: int| 0 <= i < j < requested.len() && requested[i] == requested[j] ==> i == 0
    &&& forall|i: int| 0 <= i < requested.len() && (#[trigger] requested[i]).contains('?') ==> requested[i] == seed
}

/// The first level of a crawl starts with the seed, holds each URL once, and
/// the rest of it are seen URLs without `?` that differ from the seed.
pub open spec fn level_zero_sound(level0: Seq<Seq<char>>, seed: Seq<char>, visited: Set<Seq<char>>) -> bool {
    &&& level0.len() >= 1
    &&& level0[0] == seed
    &&& level0.no_duplicates()
    &&& forall|i: int| 1 <= i < level0.len() ==> {
        &&& #[trigger] level0[i] != seed
        &&& !level0[i].contains('?')
        &&& visited.contains(level0[i])
    }
}

/// A plan made of a sound first level and later levels of distinct URLs without
/// `?` that are not in the first level (but for the seed) asks for nothing
/// twice but the seed.
pub proof fn lemma_plan_sound(level0: Seq<Seq<char>>, later: Seq<Seq<char>>, seed: Seq<char>, visited: Set<Seq<char>>, m: int)
    requires
        level_zero_sound(level0, seed, visited),
        later.no_duplicates(),
        forall|k: int| 0 <= k < later.len() ==> !(#[trigger] later[k]).contains('?'),
        forall|k: int, i: int| 0 <= k < later.len() && 1 <= i < level0.len() ==> later[k] != level0[i],
        0 <= m <= level0.len() + later.len(),
    ensures
        download_record_sound((level0 + later).take(m), seed),
{
    let p = level0 + later;
    let r = p.take(m);
    assert forall|i: int, j: int| 0 <= i < j < r.len() && r[i] == r[j] implies i == 0 by {
        assert(r[i] == p[i] && r[j] == p[j]);
        if j < level0.len() {
            assert(level0[i] == p[i] && level0[j] == p[j]);
        } else if i < level0.len() {
            assert(p[j] == later[j - level0.len()]);
            assert(p[i] == level0[i]);
        } else {
            assert(p[j] == later[j - level0.len()]);
            assert(p[i] == later[i - level0.len()]);
        }
    }
    assert forall|i: int| 0 <= i < r.len() && (#[trigger] r[i]).contains('?') implies r[i] == seed by {
        assert(r[i] == p[i]);
        if i >= level0.len() {
            assert(p[i] == later[i - level0.len()]);
        } else if i > 0 {
            assert(p[i] == level0[i]);
        }
    }
}

/// The state of a crawler, as far as its contract goes.
pub struct CrawlerView {
    pub visited: Set<Seq<char>>,
    pub queue: Seq<Seq<char>>,
    pub next_queue: Seq<Seq<char>>,
    pub chunk_start: nat,
    pub stats: Stats,
    pub model: ModelView,
    pub insertions: nat,
}

/// The first level of a crawl: the seed and, with `ascending`, the ancestors of
/// its path, deepest first.
pub open spec fn first_level(options: Options) -> Seq<Seq<char>> {
    seq![options.seed@] + (if options.ascending { url_ancestors(options.seed@) } else { Seq::<Seq<char>>::empty() })
}

/// The links seen when a crawl starts: with `ascending`, the ancestors of the
/// seed's path count as seen.
pub open spec fn first_visited(visited: Set<Seq<char>>, options: Options) -> Set<Seq<char>> {
    if options.ascending { visited.union(url_ancestors(options.seed@).to_set()) } else { visited }
}

/// The crawler is waiting for the pages of a chunk.
pub open spec fn awaiting_pages(v: CrawlerView) -> bool {
    v.chunk_start < v.queue.len()
}

/// Starting a level: an empty queue ends the crawl; otherwise the level is cut
/// into chunks of `n` and the first is asked for.
pub open spec fn begin_level(v: CrawlerView, n: nat) -> (CrawlerView, Option<Seq<Seq<char>>>) {
    if v.queue.len() == 0 {
        (v, None)
    } else {
        (
            CrawlerView {
                chunk_start: 0,
                stats: Stats {
                    chunk_count: chunk_count(v.queue.len(), n) as usize,
                    chunk_index: 1,
                    status: Status::Downloading,
                    ..v.stats
                },
                ..v
            },
            Some(chunk_at(v.queue, 0, n)),
        )
    }
}

/// The number after `d`, wrapping at `usize::MAX`.
pub open spec fn next_depth(d: usize) -> usize {
    if d < usize::MAX { (d + 1) as usize } else { 0 }
}

/// After the pages of the current chunk arrived: they are indexed, the figures
/// are brought up to date, and the next chunk is asked for; after the last
/// chunk of a level the next level begins with the URLs queued meanwhile.
pub open spec fn after_pages(v: CrawlerView, pages: Seq<Page>, options: Options) -> (CrawlerView, Option<Seq<Seq<char>>>) {
    let n = options.threads as nat;
    let s = index_pages(
        IndexState { visited: v.visited, queue: v.next_queue, model: v.model, insertions: v.insertions },
        pages,
        options.limit,
        options.seed@,
    );
    let stats = Stats {
        visited: s.visited.len() as usize,
        indexed: s.model.docs.len() as usize,
        status: Status::Indexing,
        ..v.stats
    };
    if v.chunk_start + n < v.queue.len() {
        (
            CrawlerView {
                visited: s.visited,
                queue: v.queue,
                next_queue: s.queue,
                chunk_start: v.chunk_start + n,
                stats: Stats { chunk_index: (v.stats.chunk_index + 1) as usize, status: Status::Downloading, ..stats },
                model: s.model,
                insertions: s.insertions,
            },
            Some(chunk_at(v.queue, v.chunk_start + n, n)),
        )
    } else {
        begin_level(
            CrawlerView {
                visited: s.visited,
                queue: s.queue,
                next_queue: Seq::<Seq<char>>::empty(),
                chunk_start: 0,
                stats: Stats { depth: next_depth(v.stats.depth), ..stats },
                model: s.model,
                insertions: s.insertions,
            },
            n,
        )
    }
}

/// A breadth-first crawler: each level's URLs are downloaded in chunks, the pages
/// in scope are indexed, and the new link targets make up the next level.
pub struct Crawler {
    visited: StringHashSet,
    queue: Vec<String>,
    stats: Stats,
    model: Model,
    options: Options,
    next_queue: Vec<String>,
    chunk_start: usize,
    queued: Ghost<Seq<Seq<char>>>,
    started: Ghost<bool>,
    level0: Ghost<Seq<Seq<char>>>,
    start: Ghost<nat>,
    requested: Ghost<Seq<Seq<char>>>,
    visited0: Ghost<Set<Seq<char>>>,
}

impl Crawler {
    /// The state as the contracts see it.
    pub closed spec fn spec_view(&self) -> CrawlerView {
        CrawlerView {
            visited: self.visited@,
            queue: views(self.queue@),
            next_queue: views(self.next_queue@),
            chunk_start: self.chunk_start as nat,
            stats: self.stats,
            model: self.model@,
            insertions: self.model.spec_insertions() as nat,
        }
    }

    /// Every URL queued for a later level since the crawler was made, in order.
    pub closed spec fn queued(&self) -> Seq<Seq<char>> {
        self.queued@
    }

    /// The options the crawler was made with.
    pub closed spec fn spec_options(&self) -> Options {
        self.options
    }

    /// Every URL asked for since the last `crawl`, in order.
    pub closed spec fn requested(&self) -> Seq<Seq<char>> {
        self.requested@
    }

    /// Every URL queued for a later level since the last `crawl`, in order.
    pub closed spec fn crawl_queued(&self) -> Seq<Seq<char>> {
        self.queued@.subrange(self.start@ as int, self.queued@.len() as int)
    }

    /// The links seen when the last `crawl` had made up its first level.
    pub closed spec fn crawl_visited(&self) -> Set<Seq<char>> {
        self.visited0@
    }

    /// The levels of the current crawl, one after the other: the first level,
    /// then the URLs queued since, up to those queued for the next level.
    closed spec fn planned(&self) -> Seq<Seq<char>> {
        self.level0@ + self.queued@.subrange(
            self.start@ as int,
            self.queued@.len() - views(self.next_queue@).len(),
        )
    }

    /// Where the chunk asked for last ends in the current level.
    closed spec fn chunk_end(&self) -> int {
        if self.chunk_start < self.queue@.len() {
            if self.chunk_start + self.options.threads < self.queue@.len() {
                self.chunk_start + self.options.threads
            } else {
                self.queue@.len() as int
            }
        } else {
            self.queue@.len() as int
        }
    }

    /// What has been asked for is the plan up to `end` into the current level.
    closed spec fn record_ok(&self, end: int) -> bool {
        &&& self.started@ ==> {
            &&& level_zero_sound(self.level0@, self.options.seed@, self.visited@)
            &&& self.level0@ == first_level(self.options)
            &&& self.visited0@.subset_of(self.visited@)
            &&& forall|k: int| self.start@ <= k < self.queued@.len() ==> !self.visited0@.contains(#[trigger] self.queued@[k])
            &&& self.start@ + views(self.next_queue@).len() <= self.queued@.len()
            &&& forall|k: int, i: int|
                self.start@ <= k < self.queued@.len() && 1 <= i < self.level0@.len()
                    ==> self.queued@[k] != self.level0@[i]
            &&& views(self.queue@).len() <= self.planned().len()
            &&& views(self.queue@) == self.planned().subrange(
                self.planned().len() - views(self.queue@).len(),
                self.planned().len() as int,
            )
            &&& self.requested@ == self.planned().take(self.planned().len() - views(self.queue@).len() + end)
        }
        &&& !self.started@ ==> self.requested@.len() == 0 && self.queue@.len() == 0
    }

    pub closed spec fn wf(&self) -> bool {
        &&& self.model.wf()
        &&& self.visited@.finite()
        &&& self.chunk_start < self.queue@.len() ==> {
            &&& self.stats.chunk_index >= 1
            &&& self.chunk_start == (self.stats.chunk_index - 1) * self.options.threads
        }
        &&& self.chunk_start >= self.queue@.len() ==> self.chunk_start == 0
        &&& queue_record_sound(self.queued@, self.visited@, views(self.next_queue@))
        &&& self.record_ok(self.chunk_end())
    }

    /// A crawler that has not started: nothing queued or seen yet.
    pub fn new(stats: Stats, model: Model, options: Options) -> (c: Crawler)
        requires
            model.wf(),
        ensures
            c.wf(),
            c.spec_options() == options,
            c.spec_view().visited == Set::<Seq<char>>::empty(),
            c.spec_view().queue == Seq::<Seq<char>>::empty(),
            c.spec_view().next_queue == Seq::<Seq<char>>::empty(),
            c.spec_view().chunk_start == 0,
            c.spec_view().stats == stats,
            c.spec_view().model == model@,
            c.spec_view().insertions == model.spec_insertions(),
            c.queued() == Seq::<Seq<char>>::empty(),
    {
        let c = Crawler {
            visited: StringHashSet::new(),
            queue: Vec::new(),
            stats,
            model,
            options,
            next_queue: Vec::new(),
            chunk_start: 0,
            queued: Ghost(Seq::empty()),
            started: Ghost(false),
            level0: Ghost(Seq::empty()),
            start: Ghost(0),
            requested: Ghost(Seq::empty()),
            visited0: Ghost(Set::empty()),
        };
        proof {
            assert(views(c.queue@) =~= Seq::<Seq<char>>::empty());
            assert(views(c.next_queue@) =~= Seq::<Seq<char>>::empty());
        }
        c
    }

    /// The crawler's figures.
    pub fn stats(&self) -> (s: Stats)
        ensures
            s == self.spec_view().stats,
    {
        self.stats
    }

    /// The URLs of the level being downloaded.
    pub fn queue(&self) -> (q: &Vec<String>)
        ensures
            views(q@) == self.spec_view().queue,
    {
        &self.queue
    }

    /// The link targets seen so far.
    pub fn visited(&self) -> (v: &StringHashSet)
        ensures
            v@ == self.spec_view().visited,
    {
        &self.visited
    }

    /// The index built so far.
    pub fn model(&self) -> (m: &Model)
        requires
            self.wf(),
        ensures
            m.wf(),
            m@ == self.spec_view().model,
            m.spec_insertions() == self.spec_view().insertions,
    {
        &self.model
    }

    /// Asks for the first chunk of the current level, or ends the crawl when
    /// the level is empty.
    fn start_level(&mut self) -> (a: CrawlAction)
        requires
            old(self).model.wf(),
            old(self).visited@.finite(),
            old(self).options.threads > 0,
            old(self).chunk_start == 0,
            queue_record_sound(old(self).queued@, old(self).visited@, views(old(self).next_queue@)),
            old(self).record_ok(0),
        ensures
            final(self).wf(),
            final(self).options == old(self).options,
            final(self).queued@ == old(self).queued@,
            final(self).started@ == old(self).started@,
            final(self).level0@ == old(self).level0@,
            final(self).start@ == old(self).start@,
            final(self).visited0@ == old(self).visited0@,
            final(self).requested@ == old(self).requested@ + (match action_urls(a) {
                Some(urls) => urls,
                None => Seq::<Seq<char>>::empty(),
            }),
            (final(self).spec_view(), action_urls(a)) == begin_level(old(self).spec_view(), old(self).options.threads as nat),
    {
        if self.queue.len() == 0 {
            proof {
                assert(self.requested@ + Seq::<Seq<char>>::empty() =~= self.requested@);
            }
            return CrawlAction::Finished;
        }
        self.stats.chunk_count = count_chunks(self.queue.len(), self.options.threads);
        self.stats.chunk_index = 1;
        self.stats.status = Status::Downloading;
        let urls = chunk_urls(&self.queue, 0, self.options.threads);
        proof {
            let p = self.planned();
            let q = views(self.queue@);
            let base = p.len() - q.len();
            if self.started@ {
                assert(self.requested@ + views(urls@) =~= p.take(base + self.chunk_end())) by {
                    assert forall|k: int| 0 <= k < self.chunk_end() implies views(urls@)[k] == p[base + k] by {
                        assert(q[k] == p[base + k]);
                    }
                }
            }
            self.requested = Ghost(self.requested@ + views(urls@));
        }
        CrawlAction::Download(urls)
    }

    /// With a crawl under way, what was asked for is sound.
    proof fn lemma_requested_sound(&self)
        requires
            self.wf(),
            self.started@,
        ensures
            download_record_sound(self.requested@, self.options.seed@),
    {
        let q = self.queued@;
        let later = q.subrange(self.start@ as int, q.len() - views(self.next_queue@).len());
        assert(later.no_duplicates()) by {
            assert forall|a: int, b: int| 0 <= a < later.len() && 0 <= b < later.len() && a != b implies later[a] != later[b] by {
                assert(later[a] == q[a + self.start@] && later[b] == q[b + self.start@]);
            }
        }
        assert forall|k: int| 0 <= k < later.len() implies !(#[trigger] later[k]).contains('?') by {
            assert(later[k] == q[k + self.start@]);
        }
        assert forall|k: int, i: int| 0 <= k < later.len() && 1 <= i < self.level0@.len() implies later[k] != self.level0@[i] by {
            assert(later[k] == q[k + self.start@]);
        }
        let m = self.planned().len() - views(self.queue@).len() + self.chunk_end();
        lemma_plan_sound(self.level0@, later, self.options.seed@, self.visited@, m);
    }

    /// Starts a crawl at the seed: the seed and, with `ascending`, the ancestors
    /// of its path (which count as seen from then on) make up the first level,
    /// and its first chunk is asked for.
    pub fn crawl(&mut self) -> (a: CrawlAction)
        requires
            old(self).wf(),
            old(self).spec_options().threads > 0,
        ensures
            final(self).wf(),
            final(self).spec_options() == old(self).spec_options(),
            final(self).queued() == old(self).queued(),
            old(self).spec_view().visited.subset_of(final(self).spec_view().visited),
            action_urls(a) == Some(final(self).requested()),
            download_record_sound(final(self).requested(), final(self).spec_options().seed@),
            final(self).crawl_visited() == final(self).spec_view().visited,
            final(self).requested().len() <= first_level(final(self).spec_options()).len()
                + final(self).spec_view().visited.difference(final(self).crawl_visited()).len(),
            queue_record_sound(final(self).queued(), final(self).spec_view().visited, final(self).spec_view().next_queue),
            action_urls(a) matches Some(urls) && 1 <= urls.len() <= final(self).spec_options().threads
                && awaiting_pages(final(self).spec_view()),
            (final(self).spec_view(), action_urls(a)) == begin_level(
                (CrawlerView {
                    visited: first_visited(old(self).spec_view().visited, old(self).spec_options()),
                    queue: first_level(old(self).spec_options()),
                    next_queue: Seq::<Seq<char>>::empty(),
                    chunk_start: 0,
                    ..old(self).spec_view()
                }),
                old(self).spec_options().threads as nat,
            ),
    {
        let seed = self.options.seed.clone();
        let mut queue = vec![seed];
        proof {
            assert(views(queue@) =~= seq![self.options.seed@]);
        }
        if self.options.ascending {
            let parents = ancestors(self.options.seed.as_str());
            let mut i: usize = 0;
            while i < parents.len()
                invariant
                    0 <= i <= parents.len(),
                    views(parents@) == url_ancestors(self.options.seed@),
                    views(queue@) == seq![self.options.seed@] + views(parents@).take(i as int),
                    self.visited@ == old(self).visited@.union(views(parents@).take(i as int).to_set()),
                    self.model == old(self).model,
                    self.options == old(self).options,
                    self.queued == old(self).queued,
                    self.next_queue == old(self).next_queue,
                    self.stats == old(self).stats,
                decreases parents.len() - i,
            {
                let parent = parents[i].clone();
                let ghost q0 = views(queue@);
                let ghost v0 = self.visited@;
                self.visited.insert(parent.clone());
                queue.push(parent);
                i = i + 1;
                proof {
                    assert(views(parents@)[i - 1] == parents@[i - 1]@);
                    assert(views(parents@).take(i as int) =~= views(parents@).take(i - 1).push(parents@[i - 1]@));
                    assert(views(queue@) =~= q0.push(parents@[i - 1]@));
                    assert(self.visited@ =~= old(self).visited@.union(views(parents@).take(i as int).to_set()));
                }
            }
            proof {
                assert(views(parents@).take(i as int) =~= views(parents@));
            }
        } else {
            proof {
                assert(self.visited@ =~= first_visited(old(self).visited@, self.options));
            }
        }
        self.queue = queue;
        self.next_queue = Vec::new();
        self.chunk_start = 0;
        proof {
            assert(views(self.queue@) =~= first_level(self.options));
            assert(views(self.next_queue@) =~= Seq::<Seq<char>>::empty());
            assert(self.queued@.subrange(self.queued@.len() as int, self.queued@.len() as int) =~= Seq::<Seq<char>>::empty());
            let seed = self.options.seed@;
            let level0 = first_level(self.options);
            lemma_ancestors(seed);
            let anc = url_ancestors(seed);
            assert forall|i: int| 1 <= i < level0.len() implies {
                &&& #[trigger] level0[i] != seed
                &&& !level0[i].contains('?')
                &&& self.visited@.contains(level0[i])
            } by {
                assert(self.options.ascending);
                assert(level0[i] == anc[i - 1]);
                assert(anc.to_set().contains(anc[i - 1]));
            }
            assert(level0.no_duplicates()) by {
                assert forall|a: int, b: int| 0 <= a < level0.len() && 0 <= b < level0.len() && a != b implies level0[a] != level0[b] by {
                    if a > 0 && b > 0 {
                        assert(level0[a] == anc[a - 1] && level0[b] == anc[b - 1]);
                    }
                }
            }
            self.started = Ghost(true);
            self.level0 = Ghost(level0);
            self.start = Ghost(self.queued@.len());
            self.requested = Ghost(Seq::empty());
            self.visited0 = Ghost(self.visited@);
            assert(self.planned() =~= level0);
            assert(self.planned().subrange(0, self.planned().len() as int) =~= self.planned());
            assert(self.planned().take(0) =~= Seq::<Seq<char>>::empty());
        }
        let a = self.start_level();
        proof {
            assert(self.requested@ =~= Seq::<Seq<char>>::empty() + action_urls(a).unwrap());
            self.lemma_requested_sound();
            self.lemma_requests_bounded();
        }
        a
    }

    /// Takes the pages of the chunk asked for, indexes those in scope, brings
    /// the figures up to date, and says what to download next.
    #[verifier::rlimit(80)]
    #[verifier::spinoff_prover]
    pub fn pages_downloaded(&mut self, pages: Vec<Page>) -> (a: CrawlAction)
        requires
            old(self).wf(),
            old(self).spec_options().threads > 0,
            awaiting_pages(old(self).spec_view()),
        ensures
            final(self).wf(),
            final(self).spec_options() == old(self).spec_options(),
            (final(self).spec_view(), action_urls(a)) == after_pages(old(self).spec_view(), pages@, old(self).spec_options()),
            old(self).queued().is_prefix_of(final(self).queued()),
            queue_record_sound(final(self).queued(), final(self).spec_view().visited, final(self).spec_view().next_queue),
            old(self).spec_view().visited.subset_of(final(self).spec_view().visited),
            action_urls(a) matches Some(urls) ==> 1 <= urls.len() <= final(self).spec_options().threads
                && awaiting_pages(final(self).spec_view()),
            final(self).requested() == old(self).requested() + (match action_urls(a) {
                Some(urls) => urls,
                None => Seq::<Seq<char>>::empty(),
            }),
            action_urls(a) is Some ==> final(self).requested().len() > old(self).requested().len(),
            action_urls(a) is None ==> final(self).requested() == first_level(final(self).spec_options())
                + final(self).crawl_queued(),
            download_record_sound(final(self).requested(), final(self).spec_options().seed@),
            final(self).crawl_visited() == old(self).crawl_visited(),
            final(self).requested().len() <= first_level(final(self).spec_options()).len()
                + final(self).spec_view().visited.difference(final(self).crawl_visited()).len(),
            forall|u: Seq<char>|
                #[trigger] final(self).spec_view().model.docs.contains_key(u) && !old(self).spec_view().model.docs.contains_key(u)
                    ==> in_scope(old(self).spec_options().limit, old(self).spec_options().seed@, u),
    {
        let ghost v0 = self.spec_view();
        let ghost plan0 = self.planned();
        let ghost req0 = self.requested@;
        let ghost s0 = IndexState { visited: v0.visited, queue: v0.next_queue, model: v0.model, insertions: v0.insertions };
        let ghost all = pages@;
        let limit = self.options.limit;
        for page in it: pages
            invariant
                all == it.seq(),
                self.model.wf(),
                self.options == old(self).options,
                self.queue@ == old(self).queue@,
                self.chunk_start == old(self).chunk_start,
                self.stats == old(self).stats,
                self.queued@ == old(self).queued@,
                self.started == old(self).started,
                self.level0 == old(self).level0,
                self.start == old(self).start,
                self.requested == old(self).requested,
                self.visited0 == old(self).visited0,
                limit == self.options.limit,
                (IndexState {
                    visited: self.visited@,
                    queue: views(self.next_queue@),
                    model: self.model@,
                    insertions: self.model.spec_insertions() as nat,
                }) == index_pages(s0, all.take(it.index()), self.options.limit, self.options.seed@),
        {
            proof {
                assert(all.take(it.index() + 1).drop_last() =~= all.take(it.index()));
                assert(all.take(it.index() + 1).last() == page);
            }
            let in_scope = !limit || on_site(page.url.as_str(), self.options.seed.as_str());
            if in_scope && self.model.insertions() < usize::MAX {
                let _ = queue_page(page, &mut self.next_queue, &mut self.visited, &mut self.model);
            }
        }
        proof {
            assert(all.take(all.len() as int) =~= all);
            lemma_index_pages_grows(s0, all, self.options.limit, self.options.seed@);
            lemma_index_pages_in_scope(s0, all, self.options.limit, self.options.seed@);
            let s1 = index_pages(s0, all, self.options.limit, self.options.seed@);
            let added = s1.queue.subrange(s0.queue.len() as int, s1.queue.len() as int);
            let h0 = self.queued@;
            lemma_record_extends(h0, s0, s1);
            self.queued = Ghost(h0 + added);
            assert(h0.is_prefix_of(self.queued@)) by {
                assert(self.queued@.subrange(0, h0.len() as int) =~= h0);
            }
            // The plan stays as it was: what was added sits in the next level.
            let start = self.start@;
            let end0 = h0.len() - s0.queue.len();
            assert(self.queued@.subrange(start as int, self.queued@.len() - views(self.next_queue@).len())
                =~= h0.subrange(start as int, end0));
            assert(self.planned() =~= plan0);
            assert forall|k: int, i: int|
                start <= k < self.queued@.len() && 1 <= i < self.level0@.len()
                    implies self.queued@[k] != self.level0@[i] by {
                if k >= h0.len() {
                    let j = k - h0.len() + s0.queue.len();
                    assert(self.queued@[k] == added[k - h0.len()]);
                    assert(added[k - h0.len()] == s1.queue[j]);
                    assert(s0.visited.contains(self.level0@[i]));
                } else {
                    assert(self.queued@[k] == h0[k]);
                }
            }
            assert forall|k: int| start <= k < self.queued@.len() implies !self.visited0@.contains(#[trigger] self.queued@[k]) by {
                if k >= h0.len() {
                    let j = k - h0.len() + s0.queue.len();
                    assert(self.queued@[k] == added[k - h0.len()]);
                    assert(added[k - h0.len()] == s1.queue[j]);
                } else {
                    assert(self.queued@[k] == h0[k]);
                }
            }
        }
        self.stats.visited = self.visited.len();
        self.stats.indexed = self.model.len();
        self.stats.status = Status::Indexing;
        let n = self.options.threads;
        if n < self.queue.len() - self.chunk_start {
            proof {
                lemma_next_chunk(self.stats.chunk_index as int, n as int, self.chunk_start as int, self.queue@.len() as int);
            }
            self.chunk_start = self.chunk_start + n;
            self.stats.chunk_index = self.stats.chunk_index + 1;
            self.stats.status = Status::Downloading;
            let urls = chunk_urls(&self.queue, self.chunk_start, n);
            proof {
                let q = views(self.queue@);
                let base = plan0.len() - q.len();
                assert(req0 == plan0.take(base + self.chunk_start));
                assert(req0 + views(urls@) =~= plan0.take(base + self.chunk_end())) by {
                    assert forall|k: int| 0 <= k < views(urls@).len() implies views(urls@)[k] == plan0[base + self.chunk_start + k] by {
                        assert(q[self.chunk_start + k] == plan0[base + self.chunk_start + k]);
                    }
                }
                self.requested = Ghost(req0 + views(urls@));
            }
            proof {
                self.lemma_requests_bounded();
            }
            CrawlAction::Download(urls)
        } else {
            self.stats.depth = if self.stats.depth < usize::MAX { self.stats.depth + 1 } else { 0 };
            self.queue = Vec::new();
            std::mem::swap(&mut self.queue, &mut self.next_queue);
            self.chunk_start = 0;
            proof {
                assert(views(self.next_queue@) =~= Seq::<Seq<char>>::empty());
                assert(self.queued@.subrange(self.queued@.len() as int, self.queued@.len() as int) =~= Seq::<Seq<char>>::empty());
                // The level that comes up joins the plan; everything before it was asked for.
                let h = self.queued@;
                let nq = views(self.queue@);
                let start = self.start@;
                assert(req0 =~= plan0);
                assert(h.subrange(start as int, h.len() as int)
                    =~= h.subrange(start as int, h.len() - nq.len()) + nq);
                assert(self.planned() =~= plan0 + nq);
                assert(self.planned().subrange(self.planned().len() - nq.len(), self.planned().len() as int) =~= nq);
                assert(self.planned().take(self.planned().len() - nq.len()) =~= plan0);
            }
            let a = self.start_level();
            proof {
                self.lemma_requests_bounded();
                if action_urls(a) is None {
                    self.lemma_finished_asked_all();
                }
            }
            a
        }
    }

    /// A crawl with nothing left in its level or queued for the next has asked
    /// for its whole plan.
    proof fn lemma_finished_asked_all(&self)
        requires
            self.wf(),
            self.started@,
            self.queue@.len() == 0,
            self.next_queue@.len() == 0,
        ensures
            self.requested() == first_level(self.spec_options()) + self.crawl_queued(),
    {
        assert(views(self.queue@).len() == 0);
        assert(views(self.next_queue@).len() == 0);
        assert(self.planned().take(self.planned().len() as int) =~= self.planned());
        assert(self.planned() =~= first_level(self.spec_options()) + self.crawl_queued());
    }

    /// Law: what a crawl has asked for so far is the beginning of its first
    /// level followed by every URL it queued since, in order; it asks for
    /// nothing else and skips nothing.
    pub proof fn lemma_requested_follows_plan(&self)
        requires
            self.wf(),
        ensures
            self.requested().is_prefix_of(first_level(self.spec_options()) + self.crawl_queued()),
    {
        if self.started@ {
            let full = first_level(self.spec_options()) + self.crawl_queued();
            let p = self.planned();
            let r = self.requested@;
            assert forall|k: int| 0 <= k < r.len() implies r[k] == full[k] by {
                assert(r[k] == p[k]);
                if k >= self.level0@.len() {
                    let j = k - self.level0@.len();
                    assert(p[k] == self.queued@[self.start@ + j]);
                    assert(full[k] == self.queued@[self.start@ + j]);
                }
            }
            assert(r =~= full.subrange(0, r.len() as int));
        } else {
            assert(self.requested@ =~= Seq::<Seq<char>>::empty());
            let full = first_level(self.spec_options()) + self.crawl_queued();
            assert(full.subrange(0, 0) =~= Seq::<Seq<char>>::empty());
        }
    }

    /// Law: a crawl asks for no more URLs than its first level holds and the
    /// links first seen since it began, together; each step either asks for
    /// at least one more URL or ends the crawl, so the crawl takes at most as
    /// many steps as that.
    pub proof fn lemma_requests_bounded(&self)
        requires
            self.wf(),
        ensures
            self.spec_view().visited.finite(),
            self.requested().len() <= first_level(self.spec_options()).len()
                + self.spec_view().visited.difference(self.crawl_visited()).len(),
    {
        let fresh = self.visited@.difference(self.visited0@);
        assert(fresh.subset_of(self.visited@));
        vstd::set_lib::lemma_set_subset_finite(self.visited@, fresh);
        if self.started@ {
            let q = self.queued@;
            let later = q.subrange(self.start@ as int, q.len() - views(self.next_queue@).len());
            assert(later.no_duplicates()) by {
                assert forall|a: int, b: int| 0 <= a < later.len() && 0 <= b < later.len() && a != b implies later[a] != later[b] by {
                    assert(later[a] == q[a + self.start@] && later[b] == q[b + self.start@]);
                }
            }
            assert(later.to_set().subset_of(fresh)) by {
                assert forall|u: Seq<char>| later.to_set().contains(u) implies fresh.contains(u) by {
                    let k = choose|k: int| 0 <= k < later.len() && later[k] == u;
                    assert(later[k] == q[k + self.start@]);
                }
            }
            later.unique_seq_to_set();
            vstd::set_lib::lemma_len_subset(later.to_set(), fresh);
            assert(self.planned().len() == self.level0@.len() + later.len());
        }
    }

    /// Law: while every link seen lies in a finite set `web`, the measure
    /// `first_level.len() + |web minus the links seen at the start| - requested().len()`
    /// stays at or above zero; every step that does not end the crawl asks for
    /// at least one more URL and so lowers it, hence a crawl of a finite web ends.
    pub proof fn lemma_crawl_measure(&self, web: Set<Seq<char>>)
        requires
            self.wf(),
            web.finite(),
            self.spec_view().visited.subset_of(web),
        ensures
            self.requested().len() <= first_level(self.spec_options()).len()
                + web.difference(self.crawl_visited()).len(),
    {
        self.lemma_requests_bounded();
        let fresh = self.visited@.difference(self.visited0@);
        let all = web.difference(self.visited0@);
        assert(all.subset_of(web));
        vstd::set_lib::lemma_set_subset_finite(web, all);
        vstd::set_lib::lemma_len_subset(fresh, all);
    }
}

/// Number of chunks of at most `n` that `len` URLs make.
fn count_chunks(len: usize, n: usize) -> (c: usize)
    requires
        n > 0,
    ensures
        c == chunk_count(len as nat, n as nat),
{
    if len % n == 0 {
        len / n
    } else {
        assert(len / n < usize::MAX) by (nonlinear_arith)
            requires
                n > 0,
                len % n != 0,
                len <= usize::MAX,
        {
            if n == 1 {
                assert(len % n == 0);
            }
        }
        len / n + 1
    }
}

/// Copies of the chunk of at most `n` URLs of `queue` that begins at `start`.
fn chunk_urls(queue: &Vec<String>, start: usize, n: usize) -> (urls: Vec<String>)
    requires
        start < queue@.len(),
    ensures
        views(urls@) == chunk_at(views(queue@), start as nat, n as nat),
{
    let end = if n < queue.len() - start { start + n } else { queue.len() };
    let mut urls: Vec<String> = Vec::new();
    let mut i = start;
    while i < end
        invariant
            start <= i <= end <= queue@.len(),
            views(urls@) == views(queue@).subrange(start as int, i as int),
        decreases end - i,
    {
        let url = queue[i].clone();
        let ghost before = urls@;
        urls.push(url);
        i = i + 1;
        proof {
            assert(views(urls@) =~= views(before).push(queue@[i - 1]@));
            assert(views(queue@)[i - 1] == queue@[i - 1]@);
            assert(views(urls@) =~= views(queue@).subrange(start as int, i as int));
        }
    }
    urls
}

/// Moving on by one chunk of `n` keeps the chunk number in step with the start.
proof fn lemma_next_chunk(index: int, n: int, start: int, len: int)
    by (nonlinear_arith)
    requires
        index >= 1,
        n >= 1,
        start == (index - 1) * n,
        start + n < len,
        len <= usize::MAX,
    ensures
        index + 1 <= usize::MAX,
        start + n == index * n,
{
}

} // verus!
