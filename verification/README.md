# blog

Reads the metadata block that heads a blog post and the markdown posts that
carry it. The library's own steps are specified and proved in Verus; two
steps are calls into outside crates that are trusted, not proved: reading a
`YYYY-MM-DD` date (chrono's `NaiveDate::parse_from_str`, whose result is
named, with only its month and day ranges stated) and rendering markdown to
HTML (`markdown::to_html`, whose result is named). std's
`String::from_iter` is trusted to collect characters in order.

- `src/text.rs` — whitespace, trimming, splitting, quote removal and the
  `---` marker, specified over `Seq<char>`.
- `src/date.rs` — `YYYY-MM-DD` dates, read by chrono.
- `src/fields.rs` — the line-by-line parser of a metadata block, its
  specification (`parse_block`) and the laws it obeys: skipped lines,
  whitespace at line ends and around colons, and the order of the lines of
  an accepted block do not matter, a complete block gives each field the value of its line, missing
  fields are reported exactly and in order, a repeated key or a bad date is
  reported, tags written as a list read back unchanged.
- `src/metadata.rs`, `src/frontmatter.rs` — `Metadata` and `FrontMatter`
  over that parser; cutting the metadata block out of a post file.
- `src/markdown.rs` — markdown posts: front matter plus body rendered to
  HTML by the `markdown` crate.
- `app/` — the program: file reading, printing, the HTTP server and the
  database tables and migrations.
