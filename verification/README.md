# wechat_query

Queries over a decrypted chat database: contact names, the latest sessions, the
history of a chat, search for a keyword, and the list of contacts.

- `src/` is the library. It takes rows as plain values and decides what is shown.
  Every function states what it returns, and Verus proves it, but for the calls of
  other crates and of `std` named at the end. The laws that hold across functions
  are public proof functions under "Laws" in each module.
- `tests/` runs the library on given values.
- `app/` reads the databases with `rusqlite`, off the async threads, and gives
  the replies as JSON.

| module | what it holds |
| --- | --- |
| `text`, `words`, `digits` | searching, cutting and writing text |
| `codec` | stored bytes as text, compressed or not |
| `clock` | time stamps as local time |
| `rows` | what is read from rows |
| `name_map`, `names` | contact names, and which contact a name stands for |
| `content`, `messages` | what a message is shown as |
| `sql` | the statements, with the values bound to them |
| `tables`, `targets` | the tables of contacts, and what a search looks into |
| `sort`, `pages` | stable sorting and paging |
| `sessions`, `history`, `search`, `contacts` | the queries |

A few functions call other crates: `md5`, `regex`, `zstd` and `chrono`, and parts
of `std` that have no specification. Each such call stands in a function of its
own, marked `external_body`, whose comment says what is taken for granted;
`String::push` has its specification in `text`.
