# wecraw

A web crawler and local search engine ranking by tf-idf, with its logic verified
by Verus.

- `src/` is the verified library:
  - `text`: splitting text into terms at the symbol characters, and small string helpers.
  - `model`: the term index (per-page term counts, document frequencies) and the
    integer statistics that a tf-idf ranking needs.
  - `crawler`: extracting links and text from pages (through scraper), indexing a
    page, and the breadth-first crawl as a state machine driven by downloads.
  - `url`: hosts of URLs (for keeping a crawl to the seed's site) and the
    ancestors of a URL's path.
  - `server`: routing of search-server requests.
  - `tui`: the text of the control panel.
- `app/` is the program around it: command line, downloads, the terminal
  interface, the HTTP server, JSON storage of the model, and the floating-point
  ranking.

The search server serves the files `index.html`, `index.js` and `notfound.html`
of a `webpage/` directory in the working directory; it refuses to start where
one of them cannot be read.
