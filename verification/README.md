# Kassa-LT core

Kassa-LT is a point-of-sale application for a single device. This crate is
its verified core, written in Verus: the shop's state and every operation
on it (categories, tabs, products with sales quotas, checkout, order
history, sales counts), the CSV export, the settings' defaults, and the
decisions of the backup and sync workers. Each public function states its
result exactly in its contract; `src/laws.rs` proves the properties that
span operations (what a read gives back after a write, that a refused
request changes nothing, that a sale never exceeds a quota, ...).

Layout:

- `src/` — the verified library (`text`, `tab_ids`, `listing`, `models`,
  `database`, `orders`, `exports`, `config`, `backup_worker`, `sync`,
  `laws`).
- `tests/` — tests of the library on concrete values.
- `app/` — the application around it: the SQLite store, the settings file,
  the operations the user interface calls, and the background workers.
