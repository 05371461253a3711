use vstd::prelude::*;

verus! {

/// A downloaded page: where it came from and the body that was received.
#[derive(Clone, Debug)]
pub struct Page {
    pub url: String,
    pub content: String,
}

/// Collects the pages of one round of downloads.
pub struct Download {
    pages: Vec<Page>,
}

impl View for Download {
    type V = Seq<Page>;

    closed spec fn view(&self) -> Seq<Page> {
        self.pages@
    }
}

impl Download {
    /// A downloader that holds no pages.
    pub fn new() -> (d: Download)
        ensures
            d@ == Seq::<Page>::empty(),
    {
        Download { pages: Vec::new() }
    }

    /// Forgets the pages of the last round.
    pub fn clear(&mut self)
        ensures
            final(self)@ == Seq::<Page>::empty(),
    {
        self.pages.clear();
    }

    /// Records a page that arrived.
    pub fn store(&mut self, page: Page)
        ensures
            final(self)@ == old(self)@.push(page),
    {
        self.pages.push(page);
    }

    /// The pages recorded since the last `clear`, in order of arrival.
    pub fn pages(&self) -> (pages: &Vec<Page>)
        ensures
            pages@ == self@,
    {
        &self.pages
    }
}

} // verus!
