# taipei_housing

Follows searches for apartments on a site of advertisements. Once a day every
search is read again; the library works out which advertisements belong to one
household, which households are new, which have been taken down, and what a
user's opinions are attached to when an advertisement gets a new id.

`src/` is the library, verified with Verus:

- `double`, `text`, `date`, `json`: numbers, texts and dates
- `dedup`: whether two advertisements are one household
- `delist`: a round of checking (`mod.rs`), and what holds of every round
  (`laws`, `households`, `reviews`, `rounds`, resting on `steps`)
- `db`: the rows of the tables, and the statements that change them (`record` in
  a round, `tables` where a search is saved, filled or deleted)
- `scraper`: reading cards off a page, and walking through the pages
- `import_json`, `import_steps`, `query`: files of listings, how the tables come to
  hold what a file lists, and search addresses
- `pipeline`: running through the searches, one run at a time
- `web`: what the page shows and what its forms come to

`tests/` runs the library. `app/` is the program around it: the database, the
browser, the clock and the web server. It expects the tables of the database to
be described under `migrations/`.

Numbers with decimals are held as the bits of a double; whoever calls the
library reads and writes them as text.
