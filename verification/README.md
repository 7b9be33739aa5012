# blog

A Markdown blog served by axum, with its logic verified by Verus.

- `src/` is the verified library:
  - `text.rs`: character-level string operations (trim, split, find,
    lines, words, string order, UTF-8 byte length) with their models;
  - `frontmatter.rs`: the `key: value` front matter of a post;
  - `markdown.rs`: the document tree of a Markdown source, as comrak parses it;
  - `pdf.rs`: the Typst markup of a post for the PDF export;
  - `posts.rs`: posts, publication dates, the tag index, the year index,
    newest-first order, related posts;
  - `ranking.rs`: stable orderings (rankings) and their uniqueness;
  - `site.rs`: what each page shows: archives, search, the home page, slug
    lookup, Open Graph titles, sitemap dates;
  - `laws.rs`: properties that relate several functions.
- `app/` is the server: routes, templates, file access, HTML rendering and
  the Typst compiler.
- `tests/` exercises the library on concrete values.
