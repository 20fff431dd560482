# todo_widget

A desktop to-do widget for Windows: tasks with due times, a search of what
was completed, and a weekly summary written by a language model or drafted
locally. The library in `src/` holds the widget's logic, verified with Verus;
`app/` is the Windows program around it.

## Library (`src/`)

- `calendar` — civil dates and day counts, with their round trips.
- `text` — whitespace, splitting, trimming, decimal numbers and padding over `char` sequences.
- `datetime` — `LocalDateTime`: parsing, validation, arithmetic, formatting.
- `order` — the order of date-times by minute count.
- `store` — the task and settings file formats (escaping, reading, writing) and their round trips.
- `board` — the task list and its operations, sorting, the toolbar, hit testing, colours of rows.
- `colors` — `#RRGGBB` colours, opacity text and the window theme.
- `widget` — what the main window shows and how it answers the mouse and its messages.
- `forms` — the to-do form, the date pickers, the settings form and the search of completed tasks.
- `summary` — the weekly summary: prompt, local draft, model settings and the steps of generating one.
- `win32` — plain Windows data, bit packing of message parameters and UTF-16 text.

## Program (`app/`)

Window creation, painting, dialogs, files, the registry and the HTTP call to
the model; each decision is taken by the library.
