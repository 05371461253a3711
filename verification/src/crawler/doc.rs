use vstd::prelude::*;
use vstd::hash_set::StringHashSet;
use vstd::string::StringExecFns;

use crate::crawler::download::Page;
use crate::model::{describes, indexed, Model};
use crate::text::{contains_char, option_views, push_char, views};

verus! {

broadcast use vstd::seq_lib::group_seq_properties;

/// What scraper's `Html::parse_document` makes of `html`: the text of each text
/// node under the root element, in document order.
pub uninterp spec fn html_text_nodes(html: Seq<char>) -> Seq<Seq<char>>;

/// Whether scraper's `Selector::parse` rejects `selector`.
pub uninterp spec fn css_selector_rejected(selector: Seq<char>) -> bool;

/// For each element of `html` (parsed by scraper's `Html::parse_document`) that
/// `selector` matches, the value of its attribute `attribute`, if it has one; the
/// elements come in the order in which the parser created them, leaving out any
/// that ended up detached from the tree.
pub uninterp spec fn html_selected_attributes(
    html: Seq<char>,
    selector: Seq<char>,
    attribute: Seq<char>,
) -> Seq<Option<Seq<char>>>;

/// Calls scraper: `Html::parse_document(html).root_element().text()`. Claimed:
/// the texts come back as `html_text_nodes` names them (a function of `html`
/// alone); nothing more is said of what they are.
#[verifier::external_body]
fn text_nodes(html: &str) -> (texts: Vec<String>)
    ensures
        views(texts@) == html_text_nodes(html@),
{
    let document = scraper::Html::parse_document(html);
    let texts: Vec<String> = document.root_element().text().map(|t| t.to_string()).collect();
    texts
}

/// Calls scraper: `Selector::parse(selector)`, then
/// `Html::parse_document(html).select(..)` and `attr(attribute)` on each match.
/// Claimed: it fails exactly when `css_selector_rejected(selector)`, with the
/// selector error's text, and otherwise gives `html_selected_attributes`.
#[verifier::external_body]
fn selected_attributes(html: &str, selector: &str, attribute: &str) -> (res: Result<Vec<Option<String>>, String>)
    ensures
        match res {
            Ok(values) => !css_selector_rejected(selector@)
                && option_views(values@) == html_selected_attributes(html@, selector@, attribute@),
            Err(_) => css_selector_rejected(selector@),
        },
{
    let selector = scraper::Selector::parse(selector).map_err(|err| err.to_string())?;
    let document = scraper::Html::parse_document(html);
    Ok(document.select(&selector).map(|element| element.attr(attribute).map(|v| v.to_string())).collect())
}

/// The texts, each followed by one space, one after the other.
pub open spec fn spaced_text(texts: Seq<Seq<char>>) -> Seq<char>
    decreases texts.len(),
{
    if texts.len() == 0 {
        Seq::<char>::empty()
    } else {
        spaced_text(texts.drop_last()) + texts.last().push(' ')
    }
}

/// Law: one text comes out followed by a space, and two lists of texts, one
/// after the other, give their spaced texts one after the other.
pub proof fn lemma_spaced_text_joins(t: Seq<char>, a: Seq<Seq<char>>, b: Seq<Seq<char>>)
    ensures
        spaced_text(seq![t]) == t.push(' '),
        spaced_text(a + b) == spaced_text(a) + spaced_text(b),
    decreases b.len(),
{
    assert(seq![t].drop_last() =~= Seq::<Seq<char>>::empty());
    assert(spaced_text(seq![t].drop_last()) == Seq::<char>::empty());
    assert(seq![t].last() == t);
    assert(spaced_text(seq![t]) =~= t.push(' '));
    if b.len() == 0 {
        assert(a + b =~= a);
        assert(spaced_text(a) + spaced_text(b) =~= spaced_text(a));
    } else {
        lemma_spaced_text_joins(t, a, b.drop_last());
        assert((a + b).drop_last() =~= a + b.drop_last());
        assert((a + b).last() == b.last());
        assert(spaced_text(a + b) =~= spaced_text(a) + spaced_text(b));
    }
}

/// The texts, each followed by one space, one after the other.
pub fn spaced_join(texts: &Vec<String>) -> (content: String)
    ensures
        content@ == spaced_text(views(texts@)),
{
    let mut content = String::new();
    let mut i: usize = 0;
    while i < texts.len()
        invariant
            0 <= i <= texts.len(),
            content@ == spaced_text(views(texts@).take(i as int)),
        decreases texts.len() - i,
    {
        proof {
            assert(views(texts@).take(i + 1).drop_last() =~= views(texts@).take(i as int));
        }
        content.append(texts[i].as_str());
        push_char(&mut content, ' ');
        i = i + 1;
        proof {
            assert(content@ =~= spaced_text(views(texts@).take(i as int)));
        }
    }
    proof {
        assert(views(texts@).take(i as int) =~= views(texts@));
    }
    content
}

/// The text content of a page: every text node of the parsed HTML, each
/// followed by a space.
pub fn document_content(html: &str) -> (content: String)
    ensures
        content@ == spaced_text(html_text_nodes(html@)),
{
    let texts = text_nodes(html);
    spaced_join(&texts)
}

/// Walks the `href` values of a page's links in order: each URL not seen before
/// becomes seen, and is queued unless it contains a `?`.
pub open spec fn follow_links(
    hrefs: Seq<Option<Seq<char>>>,
    visited: Set<Seq<char>>,
    queue: Seq<Seq<char>>,
) -> (Set<Seq<char>>, Seq<Seq<char>>)
    decreases hrefs.len(),
{
    if hrefs.len() == 0 {
        (visited, queue)
    } else {
        let (v, q) = follow_links(hrefs.drop_last(), visited, queue);
        match hrefs.last() {
            Some(h) => if !v.contains(h) {
                (v.insert(h), if h.contains('?') { q } else { q.push(h) })
            } else {
                (v, q)
            },
            None => (v, q),
        }
    }
}

/// The link targets among `hrefs`.
pub open spec fn link_targets(hrefs: Seq<Option<Seq<char>>>) -> Set<Seq<char>> {
    Set::new(|h: Seq<char>| hrefs.contains(Some(h)))
}

/// Law: after following links, exactly the links seen before and every link
/// target of the page are seen.
pub proof fn lemma_follow_links_visits_all(
    hrefs: Seq<Option<Seq<char>>>,
    visited: Set<Seq<char>>,
    queue: Seq<Seq<char>>,
)
    ensures
        follow_links(hrefs, visited, queue).0 == visited.union(link_targets(hrefs)),
    decreases hrefs.len(),
{
    if hrefs.len() == 0 {
        assert(visited.union(link_targets(hrefs)) =~= visited);
    } else {
        lemma_follow_links_visits_all(hrefs.drop_last(), visited, queue);
        let prev = hrefs.drop_last();
        assert forall|h: Seq<char>| #[trigger] link_targets(hrefs).contains(h) <==> link_targets(prev).contains(h) || hrefs.last() == Some(h) by {
            if hrefs.contains(Some(h)) {
                let k = choose|k: int| 0 <= k < hrefs.len() && hrefs[k] == Some(h);
                if k < hrefs.len() - 1 {
                    assert(prev[k] == Some(h));
                }
            }
            if prev.contains(Some(h)) {
                let k = choose|k: int| 0 <= k < prev.len() && prev[k] == Some(h);
                assert(hrefs[k] == Some(h));
            }
            if hrefs.last() == Some(h) {
                assert(hrefs[hrefs.len() - 1] == Some(h));
            }
        }
        assert(follow_links(hrefs, visited, queue).0 =~= visited.union(link_targets(hrefs)));
    }
}

/// The link targets among `hrefs` are those among all but the last, and the
/// last where it is one.
proof fn lemma_link_targets_last(hrefs: Seq<Option<Seq<char>>>)
    requires
        hrefs.len() > 0,
    ensures
        forall|h: Seq<char>| #[trigger] link_targets(hrefs).contains(h)
            <==> link_targets(hrefs.drop_last()).contains(h) || hrefs.last() == Some(h),
{
    let prev = hrefs.drop_last();
    assert forall|h: Seq<char>| #[trigger] link_targets(hrefs).contains(h)
        <==> link_targets(prev).contains(h) || hrefs.last() == Some(h) by {
        if hrefs.contains(Some(h)) {
            let k = choose|k: int| 0 <= k < hrefs.len() && hrefs[k] == Some(h);
            if k < hrefs.len() - 1 {
                assert(prev[k] == Some(h));
            }
        }
        if prev.contains(Some(h)) {
            let k = choose|k: int| 0 <= k < prev.len() && prev[k] == Some(h);
            assert(hrefs[k] == Some(h));
        }
        if hrefs.last() == Some(h) {
            assert(hrefs[hrefs.len() - 1] == Some(h));
        }
    }
}

/// Law: following the links of a page keeps the queue in front and appends to
/// it exactly the link targets that were not seen before and hold no `?`, each
/// once, in the order in which they first occur among the links.
pub proof fn lemma_follow_links_queues_fresh(
    hrefs: Seq<Option<Seq<char>>>,
    visited: Set<Seq<char>>,
    queue: Seq<Seq<char>>,
)
    ensures
        ({
            let q = follow_links(hrefs, visited, queue).1;
            let added = q.subrange(queue.len() as int, q.len() as int);
            &&& queue.is_prefix_of(q)
            &&& forall|h: Seq<char>| #[trigger] added.contains(h)
                <==> link_targets(hrefs).contains(h) && !visited.contains(h) && !h.contains('?')
            &&& added.no_duplicates()
            &&& forall|i: int, j: int, b: int|
                #![trigger added[i], added[j], hrefs[b]]
                0 <= i < j < added.len() && 0 <= b < hrefs.len() && hrefs[b] == Some(added[j])
                    ==> exists|a: int| 0 <= a < b && hrefs[a] == Some(added[i])
        }),
    decreases hrefs.len(),
{
    if hrefs.len() == 0 {
        let q = follow_links(hrefs, visited, queue).1;
        assert(q.subrange(queue.len() as int, q.len() as int) =~= Seq::<Seq<char>>::empty());
    } else {
        let prev = hrefs.drop_last();
        let n = hrefs.len() - 1;
        lemma_follow_links_queues_fresh(prev, visited, queue);
        lemma_follow_links_visits_all(prev, visited, queue);
        lemma_link_targets_last(hrefs);
        let (v, q) = follow_links(prev, visited, queue);
        let q2 = follow_links(hrefs, visited, queue).1;
        let ap = q.subrange(queue.len() as int, q.len() as int);
        let a2 = q2.subrange(queue.len() as int, q2.len() as int);
        // what was queued before is a link target of the earlier links, so it was seen
        assert forall|x: Seq<char>| #[trigger] ap.contains(x) implies v.contains(x) && exists|a: int|
            0 <= a < n && hrefs[a] == Some(x) by {
            assert(link_targets(prev).contains(x));
            let a = choose|a: int| 0 <= a < prev.len() && prev[a] == Some(x);
            assert(hrefs[a] == Some(x));
        }
        let pushed = match hrefs.last() {
            Some(h) => !v.contains(h) && !h.contains('?'),
            None => false,
        };
        if pushed {
            let h = hrefs.last().unwrap();
            assert(q2 == q.push(h));
            assert(a2 =~= ap.push(h));
            assert forall|x: Seq<char>| #[trigger] a2.contains(x) <==> ap.contains(x) || x == h by {
                if a2.contains(x) {
                    let k = choose|k: int| 0 <= k < a2.len() && a2[k] == x;
                    if k < ap.len() {
                        assert(ap[k] == x);
                    }
                }
                if ap.contains(x) {
                    let k = choose|k: int| 0 <= k < ap.len() && ap[k] == x;
                    assert(a2[k] == x);
                }
                if x == h {
                    assert(a2[ap.len() as int] == x);
                }
            }
            assert forall|a: int, b: int| 0 <= a < a2.len() && 0 <= b < a2.len() && a != b implies a2[a] != a2[b] by {
                if a < ap.len() && b < ap.len() {
                    assert(a2[a] == ap[a] && a2[b] == ap[b]);
                } else if a < ap.len() {
                    assert(ap.contains(a2[a]));
                } else {
                    assert(ap.contains(a2[b]));
                }
            }
            assert forall|i: int, j: int, b: int|
                #![trigger a2[i], a2[j], hrefs[b]]
                0 <= i < j < a2.len() && 0 <= b < hrefs.len() && hrefs[b] == Some(a2[j])
                    implies exists|a: int| 0 <= a < b && hrefs[a] == Some(a2[i]) by {
                assert(a2[i] == ap[i]);
                assert(ap.contains(ap[i]));
                if j < ap.len() {
                    assert(a2[j] == ap[j]);
                    if b < n {
                        assert(prev[b] == Some(ap[j]));
                        assert(exists|a: int| 0 <= a < b && prev[a] == Some(ap[i]));
                        let a = choose|a: int| 0 <= a < b && prev[a] == Some(ap[i]);
                        assert(hrefs[a] == Some(ap[i]));
                    }
                } else {
                    if b < n {
                        assert(prev[b] == Some(h));
                        assert(link_targets(prev).contains(h));
                    }
                }
            }
        } else {
            assert(q2 == q);
            assert(a2 =~= ap);
            assert forall|i: int, j: int, b: int|
                #![trigger a2[i], a2[j], hrefs[b]]
                0 <= i < j < a2.len() && 0 <= b < hrefs.len() && hrefs[b] == Some(a2[j])
                    implies exists|a: int| 0 <= a < b && hrefs[a] == Some(a2[i]) by {
                assert(ap.contains(ap[i]));
                assert(ap.contains(ap[j]));
                if b < n {
                    assert(prev[b] == Some(ap[j]));
                    assert(exists|a: int| 0 <= a < b && prev[a] == Some(ap[i]));
                    let a = choose|a: int| 0 <= a < b && prev[a] == Some(ap[i]);
                    assert(hrefs[a] == Some(ap[i]));
                }
            }
        }
    }
}

/// Follows the link targets `hrefs` of a page in order: each not seen before
/// becomes seen and, unless it holds a `?`, is queued.
pub fn follow_page_links(hrefs: &Vec<Option<String>>, queue: &mut Vec<String>, visited: &mut StringHashSet)
    ensures
        (final(visited)@, views(final(queue)@)) == follow_links(option_views(hrefs@), old(visited)@, views(old(queue)@)),
{
    let ghost links = option_views(hrefs@);
    let mut i: usize = 0;
    while i < hrefs.len()
        invariant
            links == option_views(hrefs@),
            0 <= i <= hrefs.len(),
            (visited@, views(queue@)) == follow_links(
                links.take(i as int),
                old(visited)@,
                views(old(queue)@),
            ),
        decreases hrefs.len() - i,
    {
        proof {
            assert(links.take(i + 1).drop_last() =~= links.take(i as int));
            assert(links.take(i + 1).last() == links[i as int]);
        }
        match &hrefs[i] {
            Some(href) => {
                let ghost q0 = queue@;
                let fresh = visited.insert(href.clone());
                if fresh && !contains_char(href.as_str(), '?') {
                    queue.push(href.clone());
                    proof {
                        assert(views(queue@) =~= views(q0).push(href@));
                    }
                }
            },
            None => {},
        }
        i = i + 1;
    }
    proof {
        assert(links.take(i as int) =~= links);
    }
}

/// The `href` values of the `a` elements of `html`.
pub open spec fn page_links(html: Seq<char>) -> Seq<Option<Seq<char>>> {
    html_selected_attributes(html, "a"@, "href"@)
}

/// Indexes one downloaded page: every link target not seen before becomes seen
/// and, unless it holds a `?`, is queued; then the page's text is indexed under
/// its URL. Fails, changing nothing, where scraper rejects the link selector.
pub fn queue_page(
    page: Page,
    queue: &mut Vec<String>,
    visited: &mut StringHashSet,
    model: &mut Model,
) -> (res: Result<(), String>)
    requires
        old(model).wf(),
        old(model).spec_insertions() < usize::MAX,
    ensures
        final(model).wf(),
        match res {
            Ok(()) => {
                let (v, q) = follow_links(page_links(page.content@), old(visited)@, views(old(queue)@));
                &&& !css_selector_rejected("a"@)
                &&& final(visited)@ == v
                &&& views(final(queue)@) == q
                &&& final(model).spec_insertions() == old(model).spec_insertions() + 1
                &&& final(model)@.docs.dom() == old(model)@.docs.dom().insert(page.url@)
                &&& describes(final(model)@.docs[page.url@], spaced_text(html_text_nodes(page.content@)))
                &&& forall|u: Seq<char>| u != page.url@ && old(model)@.docs.contains_key(u)
                    ==> #[trigger] final(model)@.docs[u] == old(model)@.docs[u]
                &&& final(model)@ == indexed(old(model)@, page.url@, spaced_text(html_text_nodes(page.content@)))
            },
            Err(_) => {
                &&& css_selector_rejected("a"@)
                &&& final(visited)@ == old(visited)@
                &&& final(queue)@ == old(queue)@
                &&& final(model)@ == old(model)@
                &&& final(model).spec_insertions() == old(model).spec_insertions()
            },
        },
{
    let hrefs = match selected_attributes(page.content.as_str(), "a", "href") {
        Ok(hrefs) => hrefs,
        Err(err) => {
            return Err(err);
        },
    };
    follow_page_links(&hrefs, queue, visited);
    let content = document_content(page.content.as_str());
    model.insert_document(page.url, content);
    Ok(())
}

} // verus!
