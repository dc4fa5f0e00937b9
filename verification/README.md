# org

A relationship-aware employee directory: people, directed edges between them, and
the hierarchy that the `reports_to` edges spell out. Look up a person or a team and
see their role, their chain of command, who reports to them, and how they relate to
others.

The library in `src/` is written in Verus. Every function states what it returns or
changes and is proved to do so; the public proof functions state what holds of the
library as a whole. `app/` is the program around it: the command line, the database
file, JSON, and a desktop front end.

## Modules

| Module | What it is about |
|---|---|
| `model` | People, edges, confidences, errors. |
| `tables` | Rows by ascending id: looking up, putting, filtering, the next id. |
| `db` | A directory: two tables, what always holds of them, seed data, where it is stored. |
| `people` | Adding, looking up, changing, removing and listing people. |
| `edges` | Relating people; the one reporting line of each. |
| `infer` | Guessing a boss from the reporting lines of teammates. |
| `seniority` | Reading a rank off a job title. |
| `order` | A stable sort, and the order of siblings: most senior first, then by name. |
| `tree` | Chain of command, reports, subtree, roots, headcounts, the tree as text. |
| `search` | Fuzzy search, and whom a selector means. |
| `distance` | How many typos lie between two texts. |
| `io` | Export and import of a whole directory. |
| `render` | Terminal output. |
| `commands` | What a graphical front end asks for. |
| `update` | How the program updates itself. |
| `text`, `paths` | Characters, words, padding, numbers; joining paths, and their parents. |
| `clock` | The current time, and the form it reads in. |

## What is taken on trust

`chrono` for the current time, `strsim` for the distance between words, and
`str::to_lowercase`, `char::is_alphanumeric` and `String::push` of the standard library. Each is declared in
one place, with a comment that says what is claimed of it.

Confidences are floating-point numbers in the database. The library holds a share of
votes as its two numbers, and any other confidence as its bit pattern.
