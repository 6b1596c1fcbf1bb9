# agaric_blog

A small blog server whose logic is verified with Verus. Pages are markdown
files in a directory (`db/`), each with a head of `key: value` lines
(`title`, `time`, `tag`, `script`) ended by a fence of colons. The server keeps
the rendered pages in memory, refreshes them when their sources change, lists
them by tag, and answers requests for single pages.

- `src/` is the verified library:
  - `text.rs`: the model of text (characters, UTF-8 lengths) and small string
    operations;
  - `source.rs`: the grammar of a page source, read line by line;
  - `page.rs`: the pages, kept in order of name;
  - `disk.rs`: what the server reads from its directory, as plain values;
  - `state.rs`: the site's state and how it is brought up to date;
  - `html.rs`: the documents the site serves;
  - `lists.rs`: the list of pages for a tag query;
  - `route.rs`: the answers to requests;
  - `error.rs`: the site's error;
  - `outside.rs`: the calls into ammonia, pulldown-cmark, chrono and rand,
    with the contracts taken on trust.
- `app/main.rs` is the actix-web server: it reads the directory into a
  `Disk`, hands it to the library, and sends the library's answers.
- `tests/` runs the library on concrete values.
