# nthw

The scraper and search behind *Not The Hidden Wiki*: it reads the wiki's
markdown files, downloads every linked website, and prepares the records
that the in-browser search runs over.

- `src/` is the verified library (Verus):
  - `text` — characters, whitespace, trimming, pattern search and removal;
  - `extractor` — links and tags of the wiki's markdown files, website ids;
  - `processor` — title, description, readable text, distinct words and
    thumbnail of a page, and the records gathered during a run;
  - `config` — the `NTHW_*` settings;
  - `scraper_pool_manager` — the ports the web drivers listen on;
  - `fuzzy_search`, `ranking`, `fuzzy_data` — the fuzzy and substring
    search over a worker's share of the data set;
  - `embeddings_search` — which websites the semantic search compares.
- `app/` is the program around it: environment, files, the browser driver
  pool, JSON output, and the float-based similarity ranking.
- `tests/` exercises the library on concrete inputs.
