# taskdb

A task list on top of taskchampion, as a mobile front end uses it: list the
tasks as string maps, query them with a small filter language, add, update,
delete and synchronize tasks. The logic is verified with Verus.

Layout:

- `src/text.rs` — whitespace, trimming, word splitting, lowercase and
  substring search over character sequences, each proved against a
  specification.
- `src/entries.rs` — lists of key-value pairs and the maps they build.
- `src/task.rs` — the taskchampion `Task` as the library sees it: the keys of
  its data model, its properties, its UUID and their text forms.
- `src/tags.rs` — tag filters (`+tag`, `tag`, `-tag`), tag validity, which
  tags (user and synthetic) a task carries, and the tag operations on a task.
- `src/row.rs` — the row that lists a task: its plain properties, `tags`,
  `uuid` and `status`; and the JSON text of a list of rows.
- `src/filter.rs` — the filter (`uuid`, `status`, `project`, `tags`), the
  query over a list of tasks, the test for a `wait` that cannot be read,
  and the laws of filters: blank filters, more conditions, disjoint unions,
  case.
- `src/edit.rs` — the edits that adding or updating a task from a map of
  fields plans, and why a request fails.
- `src/apply.rs` — making the planned edits to a task, and what they change;
  the laws that tie a request's tags, times and `start` to the task.
- `app/lib.rs` — the entry points: they open the on-disk replica, call the
  library and commit.
