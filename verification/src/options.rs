use vstd::prelude::*;

verus! {

/// How the program was asked to run.
#[derive(Clone, Debug)]
pub struct Options {
    /// URL at which the crawler starts.
    pub seed: String,
    /// A stored model to serve instead of crawling.
    pub serve: Option<String>,
    /// File that the model is written to.
    pub output: String,
    /// Also crawl the ancestors of the seed's path: for
    /// `http://llama.org/hamster/monkey/page.html` these are `/hamster/monkey/`,
    /// `/hamster/` and `/` on the same host.
    pub ascending: bool,
    /// Only index pages on the seed's host or one of its subdomains.
    pub limit: bool,
    /// How many URLs are downloaded at a time.
    pub threads: usize,
}

} // verus!
