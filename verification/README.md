# crptls

Accounting for cryptocurrency activity: from a CSV ledger of transactions it builds lots
and movements per account, assigns cost basis and proceeds, optionally applies like-kind
exchange treatment up to a cut-off date, and produces the journal entries and reports
(realized gains and losses with their holding period, income, expenses, lot details).

The library under `src/` is verified with Verus: each public function states what it
returns or changes in its `requires` / `ensures` contract, over spec functions and views
(`Dec::val` for decimals, `Date::day_num` for dates).  Calls into `rust_decimal`,
`chrono`, `chrono-tz` and `csv` go through small trusted wrappers whose contracts are
documented beside them.

- `csv_import_accts_txns`: the CSV bytes as rows, then accounts and transactions.
- `create_lots_mvmts`: lots and movements; outgoing amounts are taken from lots in the
  order of the costing method (LIFO or FIFO, by creation or by basis date).
- `import_cost_proceeds_etc`: cost basis, proceeds and like-kind treatment.
- `export_je`, `reports`: journal entries and report rows as values.
- `setup`, `wizard`, `cli_user_choices`: settings from arguments, environment and answers.

`app/` holds the command-line program: argument parsing, files, the terminal menu and the
32-bit float reading of the proceeds column.  `tests/` runs the library on sample ledgers.
