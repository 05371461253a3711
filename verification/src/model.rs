use vstd::prelude::*;
use vstd::hash_map::StringHashMap;

use crate::text::{split_symbols, split_terms, str_equals, views};

verus! {

broadcast use {
    vstd::seq_lib::group_seq_properties,
    vstd::seq_lib::group_to_multiset_ensures,
    vstd::multiset::group_multiset_axioms,
    vstd::hash_map::group_hash_map_axioms,
};

/// What a document is, as far as the search engine is concerned: how often each
/// term occurs in it, and how many terms it has in all.
pub struct DocumentView {
    pub terms: Map<Seq<char>, usize>,
    pub count: usize,
}

/// `d` is the term statistics of `content`: `count` is the number of pieces that
/// `content` splits into, and each piece that occurs is mapped to how often it occurs.
pub open spec fn describes(d: DocumentView, content: Seq<char>) -> bool {
    let toks = split_symbols(content);
    &&& d.count == toks.len()
    &&& forall|t: Seq<char>| #[trigger] d.terms.contains_key(t) <==> toks.contains(t)
    &&& forall|t: Seq<char>|
        d.terms.contains_key(t) ==> #[trigger] d.terms[t] == toks.to_multiset().count(t)
}

/// The term statistics of one indexed page.
pub struct Document {
    terms: StringHashMap<usize>,
    term_list: Vec<String>,
    count: usize,
}

impl View for Document {
    type V = DocumentView;

    closed spec fn view(&self) -> DocumentView {
        DocumentView { terms: self.terms@, count: self.count }
    }
}

impl Document {
    /// The list of terms names each term of the map once.
    pub closed spec fn wf(&self) -> bool {
        &&& views(self.term_list@).no_duplicates()
        &&& forall|t: Seq<char>|
            #[trigger] self.terms@.contains_key(t) <==> views(self.term_list@).contains(t)
    }

    /// A document without terms.
    pub fn new() -> (d: Document)
        ensures
            d.wf(),
            d@.terms == Map::<Seq<char>, usize>::empty(),
            d@.count == 0,
    {
        let d = Document { terms: StringHashMap::new(), term_list: Vec::new(), count: 0 };
        proof {
            assert(views(d.term_list@) =~= Seq::<Seq<char>>::empty());
        }
        d
    }

    /// How many terms the document has in all.
    pub fn count(&self) -> (n: usize)
        ensures
            n == self@.count,
    {
        self.count
    }

    /// How often `term` occurs in the document (0 where it does not).
    pub fn term_frequency(&self, term: &str) -> (n: usize)
        ensures
            n == (if self@.terms.contains_key(term@) { self@.terms[term@] } else { 0 }),
    {
        match self.terms.get(term) {
            Some(f) => *f,
            None => 0,
        }
    }

    /// Each term of the document, once.
    pub fn terms(&self) -> (list: &Vec<String>)
        requires
            self.wf(),
        ensures
            views(list@).no_duplicates(),
            forall|t: Seq<char>| #[trigger] views(list@).contains(t) <==> self@.terms.contains_key(t),
    {
        &self.term_list
    }

    /// Sets the total number of terms (used when a stored model is read back).
    pub fn set_count(&mut self, count: usize)
        requires
            old(self).wf(),
        ensures
            final(self).wf(),
            final(self)@.terms == old(self)@.terms,
            final(self)@.count == count,
    {
        self.count = count;
    }

    /// Sets how often `term` occurs (used when a stored model is read back).
    pub fn set_term(&mut self, term: String, freq: usize)
        requires
            old(self).wf(),
        ensures
            final(self).wf(),
            final(self)@.terms == old(self)@.terms.insert(term@, freq),
            final(self)@.count == old(self)@.count,
    {
        let ghost old_list = views(self.term_list@);
        if !self.terms.contains_key(term.as_str()) {
            let key = term.clone();
            self.term_list.push(key);
            proof {
                assert(views(self.term_list@) =~= old_list.push(term@));
            }
        }
        self.terms.insert(term, freq);
    }

    /// Counts the terms of `tokens`.
    fn from_tokens(tokens: &Vec<String>) -> (d: Document)
        ensures
            d.wf(),
            d@.count == tokens@.len(),
            forall|t: Seq<char>| #[trigger] d@.terms.contains_key(t) <==> views(tokens@).contains(t),
            forall|t: Seq<char>|
                d@.terms.contains_key(t) ==> #[trigger] d@.terms[t] == views(tokens@).to_multiset().count(t),
    {
        let mut d = Document::new();
        let mut i: usize = 0;
        while i < tokens.len()
            invariant
                0 <= i <= tokens.len(),
                d.wf(),
                d.count == i,
                forall|t: Seq<char>|
                    #[trigger] d.terms@.contains_key(t) <==> views(tokens@).take(i as int).contains(t),
                forall|t: Seq<char>|
                    d.terms@.contains_key(t) ==> #[trigger] d.terms@[t] == views(tokens@).take(
                        i as int,
                    ).to_multiset().count(t),
                forall|t: Seq<char>| d.terms@.contains_key(t) ==> #[trigger] d.terms@[t] <= i,
            decreases tokens.len() - i,
        {
            let token = &tokens[i];
            let ghost prefix = views(tokens@).take(i as int);
            proof {
                assert(views(tokens@).take(i + 1) =~= prefix.push(token@));
            }
            match d.terms.get(token.as_str()) {
                Some(f) => {
                    let next = *f + 1;
                    d.terms.insert(token.clone(), next);
                },
                None => {
                    let ghost old_list = views(d.term_list@);
                    d.term_list.push(token.clone());
                    d.terms.insert(token.clone(), 1);
                    proof {
                        assert(views(d.term_list@) =~= old_list.push(token@));
                        assert(prefix.to_multiset().count(token@) == 0);
                    }
                },
            }
            d.count = d.count + 1;
            i = i + 1;
        }
        proof {
            assert(views(tokens@).take(i as int) =~= views(tokens@));
        }
        d
    }
}

/// The index as a whole: each indexed page's statistics by its URL, and for
/// each term its document frequency, the number of indexed pages that hold it.
pub struct ModelView {
    pub docs: Map<Seq<char>, DocumentView>,
    pub df: Map<Seq<char>, usize>,
}

/// `df` after one more page with the term statistics `terms`: each term of the
/// page gains one, every other entry stays.
pub open spec fn df_with(df: Map<Seq<char>, usize>, terms: Map<Seq<char>, usize>) -> Map<Seq<char>, usize> {
    Map::new(
        |t: Seq<char>| df.contains_key(t) || terms.contains_key(t),
        |t: Seq<char>|
            if terms.contains_key(t) {
                ((if df.contains_key(t) { df[t] as int } else { 0 }) + 1) as usize
            } else {
                df[t]
            },
    )
}

/// `df` with the page indexed under `url` taken out of `docs`: each term of
/// that page gets the number of the other indexed pages that contain it, and
/// loses its entry where none does; every other entry stays.
pub open spec fn df_without(
    docs: Map<Seq<char>, DocumentView>,
    df: Map<Seq<char>, usize>,
    url: Seq<char>,
) -> Map<Seq<char>, usize> {
    let page = docs[url].terms;
    let others = docs.remove(url);
    Map::new(
        |t: Seq<char>|
            if page.contains_key(t) {
                docs_containing(others, t).len() > 0
            } else {
                df.contains_key(t)
            },
        |t: Seq<char>|
            if page.contains_key(t) {
                docs_containing(others, t).len() as usize
            } else {
                df[t]
            },
    )
}

/// The term statistics of `content` (see `describes`).
pub open spec fn document_of(content: Seq<char>) -> DocumentView {
    let toks = split_symbols(content);
    DocumentView {
        terms: Map::new(
            |t: Seq<char>| toks.contains(t),
            |t: Seq<char>| toks.to_multiset().count(t) as usize,
        ),
        count: toks.len() as usize,
    }
}

/// `m` after indexing `content` under `url`: the page that was indexed under
/// `url` before, if any, is taken out of the document frequencies; then the URL
/// maps to the content's statistics, and each of its terms gains one.
pub open spec fn indexed(m: ModelView, url: Seq<char>, content: Seq<char>) -> ModelView {
    let d = document_of(content);
    let base = if m.docs.contains_key(url) { df_without(m.docs, m.df, url) } else { m.df };
    ModelView { docs: m.docs.insert(url, d), df: df_with(base, d.terms) }
}

/// The URLs of the documents that contain `term`.
pub open spec fn docs_containing(docs: Map<Seq<char>, DocumentView>, term: Seq<char>) -> Set<Seq<char>> {
    docs.dom().filter(|u: Seq<char>| docs[u].terms.contains_key(term))
}

/// Each term's document frequency is the number of documents that contain it,
/// and exactly the terms of some document have one.
pub open spec fn df_counts_documents(m: ModelView) -> bool {
    &&& forall|t: Seq<char>| #[trigger] m.df.contains_key(t) <==> docs_containing(m.docs, t).len() > 0
    &&& forall|t: Seq<char>| m.df.contains_key(t) ==> #[trigger] m.df[t] == docs_containing(m.docs, t).len()
}

/// The document frequency of `t`, 0 where it has none.
pub open spec fn df_or_zero(df: Map<Seq<char>, usize>, t: Seq<char>) -> int {
    if df.contains_key(t) { df[t] as int } else { 0 }
}

/// Each term's document frequency, taken as 0 where it has none, is the number
/// of documents that contain it (an entry of 0 is allowed).
pub open spec fn df_matches_documents(m: ModelView) -> bool {
    forall|t: Seq<char>| #[trigger] df_or_zero(m.df, t) == docs_containing(m.docs, t).len()
}

/// Every term of every indexed page has a document frequency of at least one.
pub open spec fn df_covers_pages(m: ModelView) -> bool {
    forall|u: Seq<char>, t: Seq<char>|
        m.docs.contains_key(u) && #[trigger] m.docs[u].terms.contains_key(t) ==> m.df.contains_key(t) && m.df[t] >= 1
}

/// The term index of the crawled pages.
pub struct Model {
    docs: StringHashMap<Document>,
    urls: Vec<String>,
    df: StringHashMap<usize>,
    vocabulary: Vec<String>,
    insertions: usize,
}

impl View for Model {
    type V = ModelView;

    closed spec fn view(&self) -> ModelView {
        ModelView { docs: self.docs@.map_values(|d: Document| d@), df: self.df@ }
    }
}

impl Model {
    /// The URL list names each indexed page once, the vocabulary each term with a
    /// document frequency once, every document is well formed, and neither the
    /// number of pages nor any document frequency exceeds the insertion count.
    pub closed spec fn wf(&self) -> bool {
        &&& views(self.urls@).no_duplicates()
        &&& self.urls@.len() <= self.insertions
        &&& forall|u: Seq<char>| #[trigger] self.docs@.contains_key(u) <==> views(self.urls@).contains(u)
        &&& forall|u: Seq<char>| #[trigger] self.docs@.contains_key(u) ==> self.docs@[u].wf()
        &&& views(self.vocabulary@).no_duplicates()
        &&& forall|t: Seq<char>| #[trigger] self.df@.contains_key(t) <==> views(self.vocabulary@).contains(t)
        &&& forall|t: Seq<char>| #[trigger] self.df@.contains_key(t) ==> self.df@[t] <= self.insertions
    }

    /// How many times a document was indexed into this model (raised, when a
    /// stored model is read back, to its number of pages and its largest
    /// document frequency).
    pub closed spec fn spec_insertions(&self) -> usize {
        self.insertions
    }

    /// A well-formed model indexes finitely many pages.
    pub proof fn lemma_docs_finite(&self)
        requires
            self.wf(),
        ensures
            self@.docs.dom().finite(),
    {
        assert(self@.docs.dom() =~= views(self.urls@).to_set());
    }

    /// A well-formed model has fewer pages than the largest `usize`, as long as
    /// its insertion count is below it.
    proof fn lemma_docs_bounded(&self)
        requires
            self.wf(),
            self.insertions < usize::MAX,
        ensures
            self@.docs.dom().finite(),
            self@.docs.len() < usize::MAX,
    {
        assert(self@.docs.dom() =~= views(self.urls@).to_set());
        views(self.urls@).lemma_cardinality_of_set();
    }

    /// The indexed URLs in the order in which they were first indexed.
    pub closed spec fn url_order(&self) -> Seq<Seq<char>> {
        views(self.urls@)
    }

    /// The terms with a document frequency, in the order in which they first got one.
    pub closed spec fn term_order(&self) -> Seq<Seq<char>> {
        views(self.vocabulary@)
    }

    /// An empty model.
    pub fn new() -> (m: Model)
        ensures
            m.wf(),
            m@.docs == Map::<Seq<char>, DocumentView>::empty(),
            m@.df == Map::<Seq<char>, usize>::empty(),
            m.spec_insertions() == 0,
            df_counts_documents(m@),
            m.url_order() == Seq::<Seq<char>>::empty(),
            m.term_order() == Seq::<Seq<char>>::empty(),
    {
        let m = Model {
            docs: StringHashMap::new(),
            urls: Vec::new(),
            df: StringHashMap::new(),
            vocabulary: Vec::new(),
            insertions: 0,
        };
        proof {
            assert(views(m.urls@) =~= Seq::<Seq<char>>::empty());
            assert(views(m.vocabulary@) =~= Seq::<Seq<char>>::empty());
            assert(m@.docs =~= Map::<Seq<char>, DocumentView>::empty());
            assert forall|t: Seq<char>| #![trigger m@.df.contains_key(t)]
                docs_containing(m@.docs, t).len() == 0 by {
                assert(docs_containing(m@.docs, t) =~= Set::<Seq<char>>::empty());
            }
        }
        m
    }

    /// The indexed URLs, each once, in the order in which they were first indexed.
    pub fn urls(&self) -> (list: &Vec<String>)
        requires
            self.wf(),
        ensures
            views(list@) == self.url_order(),
            self.url_order().no_duplicates(),
            forall|u: Seq<char>| #[trigger] self.url_order().contains(u) <==> self@.docs.contains_key(u),
    {
        &self.urls
    }

    /// The terms that have a document frequency, each once.
    pub fn vocabulary(&self) -> (list: &Vec<String>)
        requires
            self.wf(),
        ensures
            views(list@) == self.term_order(),
            self.term_order().no_duplicates(),
            forall|t: Seq<char>| #[trigger] self.term_order().contains(t) <==> self@.df.contains_key(t),
    {
        &self.vocabulary
    }

    /// The number of indexed pages.
    pub fn len(&self) -> (n: usize)
        ensures
            n == self@.docs.len(),
    {
        proof {
            assert(self@.docs.dom() =~= self.docs@.dom());
        }
        self.docs.len()
    }

    /// The statistics of the page indexed under `url`, if any.
    pub fn document(&self, url: &str) -> (d: Option<&Document>)
        requires
            self.wf(),
        ensures
            match d {
                Some(d) => self@.docs.contains_key(url@) && d@ == self@.docs[url@] && d.wf(),
                None => !self@.docs.contains_key(url@),
            },
    {
        self.docs.get(url)
    }

    /// The document frequency of `term`, if it has one.
    pub fn document_frequency(&self, term: &str) -> (n: Option<usize>)
        ensures
            match n {
                Some(n) => self@.df.contains_key(term@) && n == self@.df[term@],
                None => !self@.df.contains_key(term@),
            },
    {
        match self.df.get(term) {
            Some(n) => Some(*n),
            None => None,
        }
    }

    /// Puts `doc` under `url`, replacing what was there; document frequencies
    /// stay, and the insertion count rises to at least the number of pages
    /// (used when a stored model is read back).
    pub fn restore_document(&mut self, url: String, doc: Document)
        requires
            old(self).wf(),
            doc.wf(),
        ensures
            final(self).wf(),
            final(self)@.docs == old(self)@.docs.insert(url@, doc@),
            final(self)@.df == old(self)@.df,
            final(self).spec_insertions() == (if final(self).url_order().len() > old(self).spec_insertions() {
                final(self).url_order().len() as usize
            } else {
                old(self).spec_insertions()
            }),
            final(self).url_order() == (if old(self)@.docs.contains_key(url@) {
                old(self).url_order()
            } else {
                old(self).url_order().push(url@)
            }),
            final(self).term_order() == old(self).term_order(),
    {
        if !self.docs.contains_key(url.as_str()) {
            let ghost old_urls = views(self.urls@);
            self.urls.push(url.clone());
            proof {
                assert(views(self.urls@) =~= old_urls.push(url@));
            }
            if self.urls.len() > self.insertions {
                self.insertions = self.urls.len();
            }
        }
        self.docs.insert(url, doc);
        proof {
            assert(self@.docs =~= old(self)@.docs.insert(url@, doc@));
        }
    }

    /// Sets the document frequency of `term` to `n` (used when a stored model
    /// is read back); the insertion count rises to at least `n`.
    pub fn restore_df(&mut self, term: String, n: usize)
        requires
            old(self).wf(),
        ensures
            final(self).wf(),
            final(self)@.docs == old(self)@.docs,
            final(self)@.df == old(self)@.df.insert(term@, n),
            final(self).spec_insertions() == (if n > old(self).spec_insertions() { n } else { old(self).spec_insertions() }),
            final(self).url_order() == old(self).url_order(),
            final(self).term_order() == (if old(self)@.df.contains_key(term@) {
                old(self).term_order()
            } else {
                old(self).term_order().push(term@)
            }),
    {
        if !self.df.contains_key(term.as_str()) {
            let ghost old_vocab = views(self.vocabulary@);
            self.vocabulary.push(term.clone());
            proof {
                assert(views(self.vocabulary@) =~= old_vocab.push(term@));
            }
        }
        self.df.insert(term, n);
        if n > self.insertions {
            self.insertions = n;
        }
    }

    /// For each indexed page, in URL order, what ranking it against `query`
    /// needs: the page's term count and, for each piece of the query, the
    /// piece's frequency in the page and its document frequency (1 if none).
    pub fn query_statistics(&self, query: &str) -> (rows: Vec<DocumentStatistics>)
        requires
            self.wf(),
        ensures
            rows@.len() == self.url_order().len(),
            forall|i: int| 0 <= i < rows@.len() ==> {
                let u = self.url_order()[i];
                let toks = split_symbols(query@);
                &&& (#[trigger] rows@[i]).url@ == u
                &&& rows@[i].count == self@.docs[u].count
                &&& rows@[i].terms@.len() == toks.len()
                &&& forall|j: int| 0 <= j < toks.len() ==> {
                    &&& (#[trigger] rows@[i].terms@[j]).frequency == frequency_in(self@.docs[u], toks[j])
                    &&& rows@[i].terms@[j].document_frequency == df_or_one(self@.df, toks[j])
                }
            },
    {
        let tokens = split_terms(query);
        let ghost toks = split_symbols(query@);
        let mut dfs: Vec<usize> = Vec::new();
        let mut j: usize = 0;
        while j < tokens.len()
            invariant
                views(tokens@) == toks,
                0 <= j <= tokens.len(),
                dfs@.len() == j,
                forall|k: int| 0 <= k < j ==> #[trigger] dfs@[k] == df_or_one(self@.df, toks[k]),
            decreases tokens.len() - j,
        {
            let n = match self.df.get(tokens[j].as_str()) {
                Some(n) => *n,
                None => 1,
            };
            dfs.push(n);
            j = j + 1;
        }
        let mut rows: Vec<DocumentStatistics> = Vec::new();
        let mut i: usize = 0;
        while i < self.urls.len()
            invariant
                self.wf(),
                views(tokens@) == toks,
                dfs@.len() == tokens@.len(),
                forall|k: int| 0 <= k < tokens@.len() ==> #[trigger] dfs@[k] == df_or_one(self@.df, toks[k]),
                0 <= i <= self.urls@.len(),
                rows@.len() == i,
                forall|r: int| 0 <= r < i ==> {
                    let u = self.url_order()[r];
                    &&& (#[trigger] rows@[r]).url@ == u
                    &&& rows@[r].count == self@.docs[u].count
                    &&& rows@[r].terms@.len() == toks.len()
                    &&& forall|k: int| 0 <= k < toks.len() ==> {
                        &&& (#[trigger] rows@[r].terms@[k]).frequency == frequency_in(self@.docs[u], toks[k])
                        &&& rows@[r].terms@[k].document_frequency == df_or_one(self@.df, toks[k])
                    }
                },
            decreases self.urls@.len() - i,
        {
            let url = &self.urls[i];
            proof {
                assert(views(self.urls@)[i as int] == url@);
                assert(self.docs@.contains_key(url@));
            }
            if let Some(document) = self.docs.get(url.as_str()) {
                let mut terms: Vec<TermStatistics> = Vec::new();
                let mut k: usize = 0;
                while k < tokens.len()
                    invariant
                        views(tokens@) == toks,
                        dfs@.len() == tokens@.len(),
                        forall|m: int| 0 <= m < tokens@.len() ==> #[trigger] dfs@[m] == df_or_one(self@.df, toks[m]),
                        self@.docs.contains_key(url@),
                        document@ == self@.docs[url@],
                        0 <= k <= tokens.len(),
                        terms@.len() == k,
                        forall|m: int| 0 <= m < k ==> {
                            &&& (#[trigger] terms@[m]).frequency == frequency_in(document@, toks[m])
                            &&& terms@[m].document_frequency == df_or_one(self@.df, toks[m])
                        },
                    decreases tokens.len() - k,
                {
                    let frequency = document.term_frequency(tokens[k].as_str());
                    proof {
                        assert(views(tokens@)[k as int] == tokens@[k as int]@);
                    }
                    terms.push(TermStatistics { frequency, document_frequency: dfs[k] });
                    k = k + 1;
                }
                rows.push(DocumentStatistics { url: url.clone(), count: document.count(), terms });
            } else {
                proof {
                    assert(false);
                }
            }
            i = i + 1;
        }
        rows
    }

    /// How many times a document was indexed into this model.
    pub fn insertions(&self) -> (n: usize)
        ensures
            n == self.spec_insertions(),
    {
        self.insertions
    }

    /// The number of indexed pages other than the one under `url` that contain `term`.
    fn pages_containing(&self, url: &str, term: &str) -> (n: usize)
        requires
            self.wf(),
        ensures
            n == docs_containing(self@.docs.remove(url@), term@).len(),
            n <= self.urls@.len(),
    {
        let ghost others = self@.docs.remove(url@);
        let ghost mut seen = Set::<Seq<char>>::empty();
        let mut n: usize = 0;
        let mut i: usize = 0;
        while i < self.urls.len()
            invariant
                self.wf(),
                others == self@.docs.remove(url@),
                0 <= i <= self.urls@.len(),
                n <= i,
                seen.finite(),
                n == seen.len(),
                forall|u: Seq<char>| #[trigger] seen.contains(u) <==> views(self.urls@).take(i as int).contains(u)
                    && docs_containing(others, term@).contains(u),
            decreases self.urls@.len() - i,
        {
            let u = &self.urls[i];
            let ghost prefix = views(self.urls@).take(i as int);
            proof {
                assert(views(self.urls@)[i as int] == u@);
                assert(views(self.urls@).take(i + 1) =~= prefix.push(u@));
                assert(self.docs@.contains_key(u@));
                if prefix.contains(u@) {
                    let k = choose|k: int| 0 <= k < prefix.len() && prefix[k] == u@;
                    assert(views(self.urls@)[k] == views(self.urls@)[i as int]);
                }
            }
            if !str_equals(u.as_str(), url) {
                if let Some(page) = self.docs.get(u.as_str()) {
                    if page.terms.contains_key(term) {
                        proof {
                            assert(docs_containing(others, term@).contains(u@));
                            seen = seen.insert(u@);
                        }
                        n = n + 1;
                    }
                }
            }
            proof {
                assert forall|v: Seq<char>| #[trigger] seen.contains(v) <==> views(self.urls@).take(i + 1).contains(v)
                    && docs_containing(others, term@).contains(v) by {
                    if v == u@ {
                        assert(views(self.urls@).take(i + 1)[i as int] == v);
                    }
                }
            }
            i = i + 1;
        }
        proof {
            assert(views(self.urls@).take(i as int) =~= views(self.urls@));
            assert forall|v: Seq<char>| docs_containing(others, term@).contains(v) implies #[trigger] views(self.urls@).contains(v) by {
                assert(self.docs@.contains_key(v));
            }
            assert(seen =~= docs_containing(others, term@));
        }
        n
    }

    /// Takes the page indexed under `url`, if any, out of the document
    /// frequencies: each of its terms is counted again over the other pages.
    fn take_out(&mut self, url: &str)
        requires
            old(self).wf(),
        ensures
            final(self).wf(),
            final(self).docs@ == old(self).docs@,
            final(self).urls@ == old(self).urls@,
            final(self).insertions == old(self).insertions,
            final(self).df@ == (if old(self)@.docs.contains_key(url@) {
                df_without(old(self)@.docs, old(self).df@, url@)
            } else {
                old(self).df@
            }),
    {
        let ghost base = self.df@;
        let ghost others = self@.docs.remove(url@);
        match self.docs.get(url) {
            None => {},
            Some(page) => {
                let ghost terms = views(page.term_list@);
                let mut j: usize = 0;
                while j < page.term_list.len()
                    invariant
                        page.wf(),
                        page@ == old(self)@.docs[url@],
                        terms == views(page.term_list@),
                        0 <= j <= page.term_list.len(),
                        self.docs@ == old(self).docs@,
                        self.urls@ == old(self).urls@,
                        self.insertions == old(self).insertions,
                        old(self).wf(),
                        base == old(self).df@,
                        others == old(self)@.docs.remove(url@),
                        views(self.vocabulary@).no_duplicates(),
                        forall|t: Seq<char>| #[trigger] self.df@.contains_key(t) <==> views(self.vocabulary@).contains(t),
                        forall|t: Seq<char>| #[trigger] self.df@.contains_key(t) ==> self.df@[t] <= self.insertions,
                        forall|t: Seq<char>| #[trigger] self.df@.contains_key(t) <==> (if terms.take(j as int).contains(t) {
                            docs_containing(others, t).len() > 0
                        } else {
                            base.contains_key(t)
                        }),
                        forall|t: Seq<char>| #[trigger] self.df@.contains_key(t) ==> self.df@[t] == (if terms.take(j as int).contains(t) {
                            docs_containing(others, t).len() as int
                        } else {
                            base[t] as int
                        }),
                    decreases page.term_list.len() - j,
                {
                    let term = &page.term_list[j];
                    let ghost prefix = terms.take(j as int);
                    proof {
                        assert(terms.take(j + 1) =~= prefix.push(term@));
                        assert(terms[j as int] == term@);
                        if prefix.contains(term@) {
                            let k = choose|k: int| 0 <= k < prefix.len() && prefix[k] == term@;
                            assert(terms[k] == terms[j as int]);
                        }
                    }
                    let n = self.pages_containing(url, term.as_str());
                    if n > 0 {
                        if !self.df.contains_key(term.as_str()) {
                            let ghost old_vocab = views(self.vocabulary@);
                            self.vocabulary.push(term.clone());
                            proof {
                                assert(views(self.vocabulary@) =~= old_vocab.push(term@));
                            }
                        }
                        self.df.insert(term.clone(), n);
                    } else if self.df.contains_key(term.as_str()) {
                        self.df.remove(term.as_str());
                        forget(&mut self.vocabulary, term.as_str());
                    }
                    j = j + 1;
                }
                proof {
                    assert(terms.take(j as int) =~= terms);
                    assert(self.df@ =~= df_without(old(self)@.docs, base, url@));
                }
            },
        }
    }

    /// Indexes the page at `url` with text `content`: the page's statistics
    /// replace any earlier ones for `url` (whose terms get the number of the
    /// other pages that hold them), and each of its terms gains one in
    /// document frequency.
    pub fn insert_document(&mut self, url: String, content: String)
        requires
            old(self).wf(),
            old(self).spec_insertions() < usize::MAX,
        ensures
            final(self).wf(),
            final(self).spec_insertions() == old(self).spec_insertions() + 1,
            final(self)@.docs.dom() == old(self)@.docs.dom().insert(url@),
            describes(final(self)@.docs[url@], content@),
            forall|u: Seq<char>| u != url@ && old(self)@.docs.contains_key(u) ==> #[trigger] final(self)@.docs[u] == old(self)@.docs[u],
            final(self)@.df == df_with(
                if old(self)@.docs.contains_key(url@) {
                    df_without(old(self)@.docs, old(self)@.df, url@)
                } else {
                    old(self)@.df
                },
                final(self)@.docs[url@].terms,
            ),
            df_counts_documents(old(self)@) ==> df_counts_documents(final(self)@),
            df_matches_documents(old(self)@) ==> df_matches_documents(final(self)@),
            df_covers_pages(old(self)@) ==> df_covers_pages(final(self)@),
            frequency_total(final(self)@.docs[url@].terms, distinct_terms(split_symbols(content@)))
                == final(self)@.docs[url@].count,
            final(self)@ == indexed(old(self)@, url@, content@),
            final(self).url_order() == (if old(self)@.docs.contains_key(url@) {
                old(self).url_order()
            } else {
                old(self).url_order().push(url@)
            }),
    {
        self.take_out(url.as_str());
        let tokens = split_terms(content.as_str());
        let document = Document::from_tokens(&tokens);
        let ghost d = document@;
        let ghost old_df = self.df@;
        let mut j: usize = 0;
        while j < document.term_list.len()
            invariant
                document.wf(),
                document@ == d,
                0 <= j <= document.term_list.len(),
                views(self.vocabulary@).no_duplicates(),
                forall|t: Seq<char>| #[trigger] self.df@.contains_key(t) <==> views(self.vocabulary@).contains(t),
                forall|t: Seq<char>| #[trigger] self.df@.contains_key(t) ==> self.df@[t] <= self.insertions + 1,
                self.insertions < usize::MAX,
                self.insertions == old(self).insertions,
                self.docs@ == old(self).docs@,
                self.urls@ == old(self).urls@,
                forall|t: Seq<char>| #[trigger] self.df@.contains_key(t) <==> old_df.contains_key(t) || views(document.term_list@).take(j as int).contains(t),
                forall|t: Seq<char>| views(document.term_list@).take(j as int).contains(t) ==> #[trigger] self.df@[t] == (if old_df.contains_key(t) { old_df[t] as int } else { 0 }) + 1,
                forall|t: Seq<char>| !views(document.term_list@).take(j as int).contains(t) && old_df.contains_key(t) ==> #[trigger] self.df@[t] == old_df[t],
                forall|t: Seq<char>| old_df.contains_key(t) ==> old_df[t] <= self.insertions,
            decreases document.term_list.len() - j,
        {
            let term = &document.term_list[j];
            let ghost prefix = views(document.term_list@).take(j as int);
            proof {
                assert(views(document.term_list@).take(j + 1) =~= prefix.push(term@));
                assert(views(document.term_list@)[j as int] == term@);
                if prefix.contains(term@) {
                    let k = choose|k: int| 0 <= k < prefix.len() && prefix[k] == term@;
                    assert(views(document.term_list@)[k] == views(document.term_list@)[j as int]);
                }
            }
            match self.df.get(term.as_str()) {
                Some(f) => {
                    let next = *f + 1;
                    self.df.insert(term.clone(), next);
                },
                None => {
                    let ghost old_vocab = views(self.vocabulary@);
                    self.vocabulary.push(term.clone());
                    self.df.insert(term.clone(), 1);
                    proof {
                        assert(views(self.vocabulary@) =~= old_vocab.push(term@));
                    }
                },
            }
            j = j + 1;
        }
        proof {
            assert(views(document.term_list@).take(j as int) =~= views(document.term_list@));
        }
        if !self.docs.contains_key(url.as_str()) {
            let ghost old_urls = views(self.urls@);
            self.urls.push(url.clone());
            proof {
                assert(views(self.urls@) =~= old_urls.push(url@));
            }
        }
        self.docs.insert(url, document);
        self.insertions = self.insertions + 1;
        proof {
            assert(final(self).docs@[url@]@ == d);
            assert(d.count == tokens@.len());
            assert(views(tokens@) == split_symbols(content@));
            old(self).lemma_docs_finite();
            let dd = document_of(content@);
            assert(d.terms =~= dd.terms);
            assert(d == dd);
            assert(self@.docs =~= indexed(old(self)@, url@, content@).docs);
            assert(self@.df =~= indexed(old(self)@, url@, content@).df);
            lemma_term_frequencies_add_up(content@);
            if df_counts_documents(old(self)@) {
                lemma_indexing_keeps_df_counts(old(self)@, url@, content@);
            }
            if df_matches_documents(old(self)@) {
                lemma_indexing_keeps_page_counts(old(self)@, url@, content@);
            }
            if df_covers_pages(old(self)@) {
                old(self).lemma_docs_bounded();
                lemma_indexing_keeps_pages_covered(old(self)@, url@, content@);
            }
        }
    }
}

/// Removes `term` from a list of distinct terms.
fn forget(list: &mut Vec<String>, term: &str)
    requires
        views(old(list)@).no_duplicates(),
    ensures
        views(final(list)@).no_duplicates(),
        forall|t: Seq<char>| #[trigger] views(final(list)@).contains(t) <==> views(old(list)@).contains(t) && t != term@,
{
    let mut i: usize = 0;
    while i < list.len()
        invariant
            list@ == old(list)@,
            views(old(list)@).no_duplicates(),
            0 <= i <= list.len(),
            forall|k: int| 0 <= k < i ==> views(list@)[k] != term@,
        decreases list.len() - i,
    {
        if str_equals(list[i].as_str(), term) {
            let ghost before = views(list@);
            proof {
                assert(before[i as int] == list@[i as int]@);
                assert(before == views(old(list)@));
                assert(before.no_duplicates());
            }
            list.remove(i);
            proof {
                assert(views(list@) =~= before.remove(i as int));
                assert forall|a: int, b: int| 0 <= a < views(list@).len() && 0 <= b < views(list@).len() && a != b
                    implies views(list@)[a] != views(list@)[b] by {
                    let a2 = if a < i { a } else { a + 1 };
                    let b2 = if b < i { b } else { b + 1 };
                    assert(views(list@)[a] == before[a2]);
                    assert(views(list@)[b] == before[b2]);
                    assert(a2 != b2);
                    assert(before[a2] != before[b2]);
                }
                assert forall|t: Seq<char>| #[trigger] views(list@).contains(t) <==> before.contains(t) && t != term@ by {
                    if before.contains(t) && t != term@ {
                        let k = choose|k: int| 0 <= k < before.len() && before[k] == t;
                        if k < i {
                            assert(views(list@)[k] == t);
                        } else {
                            assert(k != i);
                            assert(views(list@)[k - 1] == t);
                        }
                    }
                    if views(list@).contains(t) {
                        let k = choose|k: int| 0 <= k < views(list@).len() && views(list@)[k] == t;
                        if k < i {
                            assert(before[k] == t);
                            assert(before[k] != before[i as int]);
                        } else {
                            assert(before[k + 1] == t);
                            assert(k + 1 != i);
                            assert(0 <= k + 1 < before.len());
                            assert(before[k + 1] != before[i as int]);
                        }
                    }
                }
            }
            return;
        }
        proof {
            assert(views(list@)[i as int] == list@[i as int]@);
        }
        i = i + 1;
    }
}

/// How often `t` occurs in `d` (0 where it does not).
pub open spec fn frequency_in(d: DocumentView, t: Seq<char>) -> usize {
    if d.terms.contains_key(t) { d.terms[t] } else { 0 }
}

/// The document frequency of `t`, or 1 for a term that no document has.
pub open spec fn df_or_one(df: Map<Seq<char>, usize>, t: Seq<char>) -> usize {
    if df.contains_key(t) { df[t] } else { 1 }
}

/// What the ranking of one document needs of one query term.
#[derive(Clone, Copy, Debug)]
pub struct TermStatistics {
    /// How often the term occurs in the document.
    pub frequency: usize,
    /// The term's document frequency, 1 where no document has it.
    pub document_frequency: usize,
}

/// What the ranking of one document needs: its URL, its number of terms, and
/// for each piece of the query, in order, that piece's statistics.
pub struct DocumentStatistics {
    pub url: String,
    pub count: usize,
    pub terms: Vec<TermStatistics>,
}

/// Which pages contain `t` after indexing: those of the other pages that did
/// before, and the new page where its content has `t`.
proof fn lemma_indexed_containing(before: ModelView, url: Seq<char>, content: Seq<char>, t: Seq<char>)
    requires
        before.docs.dom().finite(),
    ensures
        docs_containing(before.docs.remove(url), t) == docs_containing(before.docs, t).remove(url),
        docs_containing(before.docs, t).finite(),
        docs_containing(before.docs, t).contains(url) ==> docs_containing(before.docs.remove(url), t).len()
            == docs_containing(before.docs, t).len() - 1,
        !docs_containing(before.docs, t).contains(url) ==> docs_containing(before.docs.remove(url), t)
            == docs_containing(before.docs, t),
        docs_containing(indexed(before, url, content).docs, t).len() == docs_containing(before.docs.remove(url), t).len()
            + (if document_of(content).terms.contains_key(t) { 1int } else { 0 }),
{
    let b = docs_containing(before.docs, t);
    let rest = docs_containing(before.docs.remove(url), t);
    let a = docs_containing(indexed(before, url, content).docs, t);
    assert(rest =~= b.remove(url));
    assert(b.subset_of(before.docs.dom()));
    vstd::set_lib::lemma_set_subset_finite(before.docs.dom(), b);
    if !b.contains(url) {
        assert(rest =~= b);
    }
    if document_of(content).terms.contains_key(t) {
        assert(a =~= rest.insert(url));
    } else {
        assert(a =~= rest);
    }
}

/// What the document frequency of `t` is once the page under `url`, if any, is
/// taken out: in a model whose frequencies count pages (0 for none), the number
/// of the other pages that contain `t`.
proof fn lemma_base_counts_others(before: ModelView, url: Seq<char>, t: Seq<char>)
    requires
        before.docs.dom().finite(),
        df_matches_documents(before),
        forall|s: Seq<char>| #[trigger] before.df.contains_key(s) ==> before.df[s] < usize::MAX,
    ensures
        ({
            let base = if before.docs.contains_key(url) { df_without(before.docs, before.df, url) } else { before.df };
            &&& df_or_zero(base, t) == docs_containing(before.docs.remove(url), t).len()
            &&& df_or_zero(base, t) < usize::MAX
        }),
{
    let b = docs_containing(before.docs, t);
    let rest = docs_containing(before.docs.remove(url), t);
    lemma_indexed_containing(before, url, Seq::<char>::empty(), t);
    assert(df_or_zero(before.df, t) == b.len());
    if before.docs.contains_key(url) && before.docs[url].terms.contains_key(t) {
        assert(b.contains(url));
    } else {
        assert(!b.contains(url));
    }
}

/// Law: indexing a page, under a new URL or one indexed before, keeps every
/// document frequency (taken as 0 where a term has none) equal to the number of
/// indexed pages that contain the term (as long as no frequency is at the
/// largest `usize`).
pub proof fn lemma_indexing_keeps_page_counts(before: ModelView, url: Seq<char>, content: Seq<char>)
    requires
        before.docs.dom().finite(),
        df_matches_documents(before),
        forall|t: Seq<char>| #[trigger] before.df.contains_key(t) ==> before.df[t] < usize::MAX,
    ensures
        df_matches_documents(indexed(before, url, content)),
{
    let after = indexed(before, url, content);
    assert forall|t: Seq<char>| #[trigger] df_or_zero(after.df, t) == docs_containing(after.docs, t).len() by {
        lemma_indexed_containing(before, url, content, t);
        lemma_base_counts_others(before, url, t);
    }
}

/// Law: indexing a page, under a new URL or one indexed before, keeps every
/// document frequency equal to the number of indexed pages that contain the
/// term, with an entry for exactly the terms that some page has (as long as no
/// frequency is at the largest `usize`).
pub proof fn lemma_indexing_keeps_df_counts(before: ModelView, url: Seq<char>, content: Seq<char>)
    requires
        before.docs.dom().finite(),
        df_counts_documents(before),
        forall|t: Seq<char>| #[trigger] before.df.contains_key(t) ==> before.df[t] < usize::MAX,
    ensures
        df_counts_documents(indexed(before, url, content)),
{
    let after = indexed(before, url, content);
    let d = document_of(content);
    let base = if before.docs.contains_key(url) { df_without(before.docs, before.df, url) } else { before.df };
    assert forall|t: Seq<char>| #[trigger] df_or_zero(before.df, t) == docs_containing(before.docs, t).len() by {
        if !before.df.contains_key(t) {
            assert(docs_containing(before.docs, t).len() <= 0);
        }
    }
    assert forall|t: Seq<char>| #![trigger after.df.contains_key(t)]
        (after.df.contains_key(t) <==> docs_containing(after.docs, t).len() > 0)
        && (after.df.contains_key(t) ==> after.df[t] == docs_containing(after.docs, t).len()) by {
        lemma_indexed_containing(before, url, content, t);
        lemma_base_counts_others(before, url, t);
        let rest = docs_containing(before.docs.remove(url), t);
        if before.docs.contains_key(url) && before.docs[url].terms.contains_key(t) {
        } else {
            assert(base.contains_key(t) <==> before.df.contains_key(t));
            assert(before.df.contains_key(t) <==> docs_containing(before.docs, t).len() > 0);
        }
        assert(base.contains_key(t) <==> rest.len() > 0);
    }
}

/// Law: indexing a page, under a new URL or one indexed before, keeps every
/// term of every indexed page at a document frequency of at least one (as long
/// as neither the number of pages nor any frequency is at the largest `usize`).
pub proof fn lemma_indexing_keeps_pages_covered(before: ModelView, url: Seq<char>, content: Seq<char>)
    requires
        before.docs.dom().finite(),
        before.docs.len() < usize::MAX,
        df_covers_pages(before),
        forall|t: Seq<char>| #[trigger] before.df.contains_key(t) ==> before.df[t] < usize::MAX,
    ensures
        df_covers_pages(indexed(before, url, content)),
{
    let after = indexed(before, url, content);
    let d = document_of(content);
    let base = if before.docs.contains_key(url) { df_without(before.docs, before.df, url) } else { before.df };
    assert forall|u: Seq<char>, t: Seq<char>|
        after.docs.contains_key(u) && #[trigger] after.docs[u].terms.contains_key(t) implies after.df.contains_key(t)
            && after.df[t] >= 1 by {
        let rest = docs_containing(before.docs.remove(url), t);
        assert(rest.subset_of(before.docs.dom()));
        vstd::set_lib::lemma_len_subset(rest, before.docs.dom());
        let in_old_page = before.docs.contains_key(url) && before.docs[url].terms.contains_key(t);
        if in_old_page {
            assert(base.contains_key(t) <==> rest.len() > 0);
            assert(base.contains_key(t) ==> base[t] == rest.len());
        } else {
            assert(base.contains_key(t) == before.df.contains_key(t));
        }
        if !d.terms.contains_key(t) {
            assert(u != url);
            assert(before.docs.contains_key(u) && before.docs[u].terms.contains_key(t));
            if in_old_page {
                assert(rest.contains(u));
                assert(rest.len() > 0) by {
                    if rest.len() == 0 {
                        assert(rest =~= Set::<Seq<char>>::empty());
                    }
                }
            }
        }
    }
}

/// Law: in a model where frequencies count pages, every term of every indexed
/// page has a document frequency of at least one.
pub proof fn lemma_df_covers_page_terms(m: ModelView, u: Seq<char>, t: Seq<char>)
    requires
        m.docs.dom().finite(),
        df_counts_documents(m),
        m.docs.contains_key(u),
        m.docs[u].terms.contains_key(t),
    ensures
        m.df.contains_key(t),
        m.df[t] >= 1,
{
    let c = docs_containing(m.docs, t);
    assert(c.contains(u));
    assert(c.subset_of(m.docs.dom()));
    vstd::set_lib::lemma_set_subset_finite(m.docs.dom(), c);
    assert(c.len() > 0) by {
        if c.len() == 0 {
            assert(c =~= Set::<Seq<char>>::empty());
        }
    }
}

/// The distinct pieces of `toks`, in the order of their first occurrence.
pub open spec fn distinct_terms(toks: Seq<Seq<char>>) -> Seq<Seq<char>>
    decreases toks.len(),
{
    if toks.len() == 0 {
        Seq::<Seq<char>>::empty()
    } else {
        let prev = distinct_terms(toks.drop_last());
        if prev.contains(toks.last()) { prev } else { prev.push(toks.last()) }
    }
}

/// How often the `keys` occur in `toks`, added up.
pub open spec fn occurrence_total(toks: Seq<Seq<char>>, keys: Seq<Seq<char>>) -> int
    decreases keys.len(),
{
    if keys.len() == 0 {
        0
    } else {
        occurrence_total(toks, keys.drop_last()) + toks.to_multiset().count(keys.last())
    }
}

/// The frequencies of `keys` in `terms`, added up.
pub open spec fn frequency_total(terms: Map<Seq<char>, usize>, keys: Seq<Seq<char>>) -> int
    decreases keys.len(),
{
    if keys.len() == 0 {
        0
    } else {
        frequency_total(terms, keys.drop_last()) + terms[keys.last()]
    }
}

proof fn lemma_occurrence_total_push(toks: Seq<Seq<char>>, keys: Seq<Seq<char>>, x: Seq<char>)
    requires
        keys.no_duplicates(),
    ensures
        occurrence_total(toks.push(x), keys) == occurrence_total(toks, keys) + (if keys.contains(x) { 1int } else { 0 }),
    decreases keys.len(),
{
    if keys.len() > 0 {
        let init = keys.drop_last();
        assert(init.no_duplicates()) by {
            assert forall|a: int, b: int| 0 <= a < init.len() && 0 <= b < init.len() && a != b implies init[a] != init[b] by {
                assert(init[a] == keys[a] && init[b] == keys[b]);
            }
        }
        lemma_occurrence_total_push(toks, init, x);
        assert(toks.push(x).to_multiset() =~= toks.to_multiset().insert(x));
        if keys.last() == x {
            assert(!init.contains(x)) by {
                if init.contains(x) {
                    let k = choose|k: int| 0 <= k < init.len() && init[k] == x;
                    assert(keys[k] == keys[keys.len() - 1]);
                }
            }
        } else {
            assert(keys.contains(x) <==> init.contains(x)) by {
                if keys.contains(x) {
                    let k = choose|k: int| 0 <= k < keys.len() && keys[k] == x;
                    assert(init[k] == x);
                }
                if init.contains(x) {
                    let k = choose|k: int| 0 <= k < init.len() && init[k] == x;
                    assert(keys[k] == x);
                }
            }
        }
    }
}

proof fn lemma_occurrence_total_bounds(toks: Seq<Seq<char>>, keys: Seq<Seq<char>>, k: int)
    requires
        0 <= k < keys.len(),
    ensures
        toks.to_multiset().count(keys[k]) <= occurrence_total(toks, keys),
        occurrence_total(toks, keys.drop_last()) >= 0,
    decreases keys.len(),
{
    if k < keys.len() - 1 {
        lemma_occurrence_total_bounds(toks, keys.drop_last(), k);
        assert(keys.drop_last()[k] == keys[k]);
    } else if keys.len() > 1 {
        lemma_occurrence_total_bounds(toks, keys.drop_last(), 0);
    }
}

proof fn lemma_totals_agree(toks: Seq<Seq<char>>, terms: Map<Seq<char>, usize>, keys: Seq<Seq<char>>)
    requires
        forall|i: int| 0 <= i < keys.len() ==> terms[#[trigger] keys[i]] == toks.to_multiset().count(keys[i]),
    ensures
        frequency_total(terms, keys) == occurrence_total(toks, keys),
    decreases keys.len(),
{
    if keys.len() > 0 {
        let init = keys.drop_last();
        assert forall|i: int| 0 <= i < init.len() implies terms[#[trigger] init[i]] == toks.to_multiset().count(init[i]) by {
            assert(init[i] == keys[i]);
        }
        lemma_totals_agree(toks, terms, init);
        assert(terms[keys[keys.len() - 1]] == toks.to_multiset().count(keys[keys.len() - 1]));
    }
}

/// Law: every piece occurs among the distinct pieces exactly once, and how often
/// each distinct piece occurs adds up to the number of pieces.
pub proof fn lemma_occurrences_add_up(toks: Seq<Seq<char>>)
    ensures
        distinct_terms(toks).no_duplicates(),
        forall|t: Seq<char>| #[trigger] distinct_terms(toks).contains(t) <==> toks.contains(t),
        occurrence_total(toks, distinct_terms(toks)) == toks.len(),
    decreases toks.len(),
{
    if toks.len() > 0 {
        let init = toks.drop_last();
        let x = toks.last();
        lemma_occurrences_add_up(init);
        let prev = distinct_terms(init);
        assert(init.push(x) == toks);
        assert forall|t: Seq<char>| #[trigger] toks.contains(t) <==> init.contains(t) || t == x by {
            if toks.contains(t) {
                let k = choose|k: int| 0 <= k < toks.len() && toks[k] == t;
                if k < toks.len() - 1 {
                    assert(init[k] == t);
                }
            }
            if init.contains(t) {
                let k = choose|k: int| 0 <= k < init.len() && init[k] == t;
                assert(toks[k] == t);
            }
            if t == x {
                assert(toks[toks.len() - 1] == t);
            }
        }
        lemma_occurrence_total_push(init, prev, x);
        if !prev.contains(x) {
            let next = prev.push(x);
            assert(next.drop_last() =~= prev);
            assert(init.to_multiset().count(x) == 0);
            assert(toks.to_multiset() =~= init.to_multiset().insert(x));
            assert forall|a: int, b: int| 0 <= a < next.len() && 0 <= b < next.len() && a != b implies next[a] != next[b] by {
                if a < prev.len() && b < prev.len() {
                } else if a < prev.len() {
                    assert(prev.contains(next[a]));
                } else {
                    assert(prev.contains(next[b]));
                }
            }
            assert forall|t: Seq<char>| #[trigger] next.contains(t) <==> prev.contains(t) || t == x by {
                if next.contains(t) {
                    let k = choose|k: int| 0 <= k < next.len() && next[k] == t;
                    if k < prev.len() {
                        assert(prev[k] == t);
                    }
                }
                if prev.contains(t) {
                    let k = choose|k: int| 0 <= k < prev.len() && prev[k] == t;
                    assert(next[k] == t);
                }
                if t == x {
                    assert(next[prev.len() as int] == t);
                }
            }
        }
    }
}

/// Law: the term frequencies of the statistics of `content`, taken over its
/// distinct pieces (each term once), add up to its term count.
pub proof fn lemma_term_frequencies_add_up(content: Seq<char>)
    requires
        split_symbols(content).len() <= usize::MAX,
    ensures
        distinct_terms(split_symbols(content)).no_duplicates(),
        forall|t: Seq<char>| #[trigger] distinct_terms(split_symbols(content)).contains(t)
            <==> document_of(content).terms.contains_key(t),
        frequency_total(document_of(content).terms, distinct_terms(split_symbols(content)))
            == document_of(content).count,
{
    let toks = split_symbols(content);
    let keys = distinct_terms(toks);
    let d = document_of(content);
    lemma_occurrences_add_up(toks);
    assert forall|i: int| 0 <= i < keys.len() implies d.terms[#[trigger] keys[i]] == toks.to_multiset().count(keys[i]) by {
        lemma_occurrence_total_bounds(toks, keys, i);
        assert(keys.contains(keys[i]));
    }
    lemma_totals_agree(toks, d.terms, keys);
}

} // verus!
