# todoj

A terminal TODO manager: todos with due dates, priorities, progress levels
and sub-todos, kept in a local SQLite database.

The library (`src/`) holds the logic, verified with Verus:

- `cli`: command words, list numbers (`1,3-5`) and list display options.
- `session`: what each line typed in the interactive session does (the
  command table, usage messages, the `order` and `past` toggles).
- `commands`: what `add`, `edit`, `remove`, `done` and `more` (copy) ask
  for, with the inline `@date` and `^priority` forms and every error
  message.
- `repeat`: repetition periods (`-r d|e|w|N|M/D`), their display, and the
  todo that completing a recurring todo creates.
- `dates`, `calendar`: date input (`15`, `3/15`, `26/3/15`, `@today`,
  weekday names), stored `YYYYMMDD` keys, their display and due colors;
  dates are modelled by day numbers, and chrono does the date arithmetic.
- `calendar_view`: the month and four-week calendars.
- `list_view`, `listing`, `ordering`: the list screen (order mode, completed
  todos, paging) and the line of each todo with its parent references.
- `highlight`: search matches colored in a todo's text, and search results
  ten at a time.
- `model`: todos, updates, done levels and the repository trait; `text`: the string handling the
  rest builds on.

`app/` is the program around it: argument parsing, the SQLite repository,
the command loop and the terminal.
