# system_i2

The verified core of a local-first desktop time tracker. Work sessions are
logged with a date, a duration, a task category and optionally a project and a
note; the data lives in a bundle of one SQLite database and a few JSON and log
files.

- `src/` is the library, checked by Verus: validation of user input, the task
  category tree and its change log, project categories, projects and tasks,
  the analytics dashboard (period summaries, root shares, project breakdowns,
  daily series, trends), the runtime bundle's status and its zip backup, and
  the decisions of the schema upgrade. Contracts are stated over `Seq`, `Set`
  and spec functions; laws that relate several functions are public proof
  functions named `law_*`.
- `tests/` exercises the library on concrete values.
- `app/` is the desktop side: reading and writing files and the database,
  the JSON shapes exchanged with the user interface, and first-run setup.
