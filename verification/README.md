# esm

A read-only engine for plugin files of a role-playing game: it decodes records
by a schema, indexes them, searches and filters them, and compares two versions
of a plugin. The library is written in Verus; every function states what it
gives and is proved to give it. A few items are the exception: what they say of
std and of serde_json is believed. They are `String::push` and the wrappers
`to_lower`, `to_upper`, `debug_string`, `from_lossy` and `from_utf8` in `text`,
the wrapper `quote` in `diff::array_diff`, and the names `lowercase`,
`uppercase`, `debug_form`, `lossy` and `json_quoted` for what those give.

- `src/` is the library.
  - `text`, `order`, `wildcard`, `json`: texts, their order, patterns, values.
  - `format`, `formid`, `schema`, `strings`, `curves`, `reader`, `hardcoded`:
    what a plugin and its tables hold.
  - `decode`: from subrecords to values. `decode::meaning` says what the schema
    means, `decode::walk` carries it out, `decode::laws` states what holds of
    it.
  - `settle`: decoded values may hold queries that take floating point (a curve
    at a point, the bash damage of a weapon, a condition). They are answered
    from outside and put in place here. How floats read, by which lists of them
    are put in order, comes from outside too.
  - `index`, `database`, `listing`, `filter`, `query`, `selectors`, `carriers`,
    `coverage`, `tree`: what can be asked of a plugin.
  - `diff`: the comparison of two plugins, and the noise that is taken out of
    it.
  - `ipc`, `dispatch`, `discover`, `error`: requests, where sources lie, and
    what can go wrong.
  - `laws`, `diff::laws`, `diff::edits`, `decode::laws`: what holds across
    functions.
- `tests/` runs the library on concrete values.
- `app/` is ordinary Rust around it: folders, JSON on the wire, locks, what
  makes a plugin ready to be asked, and floating point.
