# association_rules

Association-rule mining over a CSV table, with the library verified in Verus.

- `src/` is the verified library: the table type (`frame`), queries over it
  (`queries`, `chained`), pair and rule enumeration (`combinatorics`, `text`,
  `rules`), the first-degree and higher-degree mining passes (`mining`,
  `superior`), CSV loading (`csv_input`), and proved properties (`laws`).
- `app/` is the command-line program: it reads `src/dataset.csv`, prints each
  candidate rule with its support, confidence and lift, and appends the same
  lines to a time-stamped report file.
- `tests/` runs the library on concrete tables.
