# md_wiki

A minimal static wiki over markdown notes: every markdown file directly in the
source directory becomes an HTML page wrapped in `header.html` and
`footer.html`; links between notes become links between pages and are listed
as backlinks ("Linked from:"); hashtags become links to category pages that
list the pages carrying them; every other file is copied as-is; a search
index lists the headings of each page.

The library in `src/` is verified with Verus:

- `text`, `path`: characters, strings and `/`-separated paths, with their
  meaning as spec functions.
- `hashtag_parser`, `hashtag_linker`: where hashtags are and how a text is cut
  into plain pieces and hashtags.
- `link_translator`: `.md` link targets become `.html` targets.
- `sorted_set_map`, `analyzer`: backlinks, categories and headings gathered
  page by page; the result does not depend on the order of the pages.
- `html_aggregator`: heading slugs and heading ids for a pulldown-cmark event
  stream.
- `filesystem`: the file system interface, an in-memory implementation, and
  ignore patterns.
- `wiki`: which inputs become pages or assets, how a page and the whole site
  are put together, the search data file, and the conversion itself.
- `markdown`: a comrak document, parsed, edited and rendered, with a model
  of its nodes and of the edits made on it.

`app/` holds the command line program: argument parsing and the real file
system.
