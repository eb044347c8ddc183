# calendars_core

A school timetabling library whose behaviour is stated in `requires` / `ensures`
contracts and proved with Verus.

- `src/` is the verified library:
  - `week_calendar`, `constraints`: days, timeslots, semesters, groups, rooms, classes
    and professors.
  - `class_calendar`: the sessions of every class in the week, kept as a list and as
    per-cell counts that always agree.
  - `school_schedule`: classes, professors, their metadata and the calendar, kept so
    that every class has as many sessions as its weekly hours; `ics_export` turns its
    sessions into calendar events.
  - `heuristics`, `day_penalties`, `rows`, `classroom_assignment`, `sums`, `bounds`:
    the penalties that grade a calendar, with their bounds.
  - `annealing`: the weighted cost and the moves of the search.
  - `importer`: the SQL dump clean-up and the import of a school from its table rows;
    `legacy_import`: the import from the tables of the older database.
  - `real_counter`, `session_calendar`, `registers`, `evaluators`, `calendar_text`:
    the counter-based calendar of sessions, its random moves, its measures and its
    text form.
  - `widgets`: what the editing windows decide (search, filters, availability clicks).
- Classes and professors are kept in `Vec`s and named by their position (`ClassKey`,
  `ProfessorKey`); counters keep (key, count) pairs with distinct keys; the allowed
  classroom types of a class are a struct of flags.
- `tests/` runs the library on concrete values.
- `app/` is the command-line program: it reads the SQL dumps and JSON files, runs the
  floating-point acceptance rule of the search, and writes JSON and iCalendar files.
