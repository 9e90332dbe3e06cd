# website

The content model and deployment logic of a static website generator,
written in Verus. Every function in `src/` carries a contract, and Verus
proves each of them but twelve: the small `#[verifier::external_body]`
wrappers that call into `fancy_regex` (compiling and running a regular
expression), `serde_json` (reading the deployment map file) and the
standard library (Unicode case and digit tests, `Debug` text of a list,
collecting chars into a `String`, array/`Vec` conversions). Their
contracts are trusted, not proved; each one's doc comment says what it
claims of the code it calls.

- `src/text.rs`, `src/sorting.rs`: text helpers (decimal and zero-padded
  numbers, UTF-8 byte offsets, lexicographic order) and a stable sort over
  a listing order.
- `src/datetime.rs`, `src/blog.rs`, `src/posts.rs`: dates read from paths,
  file names and CSV fields; sort keys that order chronologically; blog and
  post metadata and listings, newest first.
- `src/csv.rs`, `src/other.rs`: CSV rows with header and width checks, and
  the idea and link entries built from them.
- `src/markdown.rs`, `src/regex.rs`: post-processing of the HTML that pandoc
  produces (titles, quotes, table of contents, heading anchors), with the
  regular expressions run by `fancy_regex`.
- `src/pathpattern.rs`, `src/deployment.rs`: path patterns with `<name>`
  placeholders, the deployment map built from them (later mappings override
  earlier ones), and what has been deployed.
- `src/projects.rs`, `src/notes.rs`, `src/homepage.rs`, `src/cv.rs`,
  `src/navbar.rs`, `src/titles.rs`, `src/cli.rs`: the remaining pages'
  data and rules.
- `app/`: the program around the library: command line, file system, the
  JSON configuration read into copies of the library's types, pandoc,
  globbing, copying.
- `tests/`: tests of the library on concrete values.
