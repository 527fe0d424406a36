# openqbw

A verified reader for the catalog and the business records of QuickBooks `.qbw`
files. The file is a page store; `opensqlany` reads its pages, and this library does
the rest.

- `pages`: pages of the store, with the fill that hides them taken off.
- `syscolumn`: `SYSCOLUMN` rows, which define columns.
- `backref`, `owner_bridge`: which table a column belongs to.
- `schema`: the columns of a table, looked up by its name.
- `records`, `csv`, `iif`, `export`: business records in portable formats.
- `verification`: sums over what was exported, and whether journals balance.
- `report`, `schema_report`, `catalog_report`: what was found, in words.
- `date`, `money`, `layout`, `text`, `order`: what the others build on.

Everything under `src/` is checked by Verus. Functions of `opensqlany` and of the
standard library are called through wrappers whose contracts are taken as given;
each says in its comment what is claimed. `app/` holds the command-line tool: files,
the SQLite database, and percentages.
