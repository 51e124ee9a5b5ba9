# stask

A keyboard-driven task manager for the terminal. Tasks form a tree of
unlimited depth; each has a title, a due date, a user-defined status and a
Markdown note. Every change of the data can be undone and redone.

The library under `src/` holds everything that decides something: the store
with its undo history, search, the tree view, the modes and what each key does
in them, the keymap and its configuration, and the text that is put on the
screen. It is written in Verus: each function states what it returns or
changes, and the statements are proved. `app/` is the program around it: the
terminal, the SQLite file, the configuration file and the external editor.

## Layout

| Where | What |
|---|---|
| `tables`, `plans`, `ops` | the stored tables, what each action does to them, and the history, as mathematics |
| `store`, `db` | the store itself |
| `forest`, `order`, `tree` | sibling groups, walks, listings and the visible rows |
| `query`, `query_view` | search requests and the search view |
| `key`, `keyspec`, `keymap`, `command`, `config` | keys, their notation, bindings and the configuration |
| `input`, `external_editor`, `note` | text input and notes |
| `help`, `footer`, `render`, `overlay`, `style`, `color`, `width` | what is shown |
| `status`, `status_cycle`, `status_manage` | statuses and their modal |
| `app` | the session: its state, its transitions (`app::model`) and the code that follows them |
| `laws`, `siblings`, `sight`, `defaults`, `app::laws` | what holds across actions and of the defaults |
| `clock`, `text` | dates from chrono, and texts |

## What is proved, in short

- Undo restores the tables exactly, redo reverts undo, and a closed
  sub-session counts as one step.
- The parent links never close a cycle, no task loses its parent or its
  status, and exactly one status is the default.
- A search finds exactly the matching tasks, each once.
- Deleting removes a subtree and nothing else; moving and creating keep the
  order of the siblings.
- Undo and the jump to a search result put the cursor on the task, whatever
  was collapsed or zoomed.
- A task has a row exactly where its ancestors in view are expanded and the
  filter hides none of them, and no key outside the status modal leaves the
  rows out of date.
- The default bindings neither clash nor shadow one another, and they and the
  commands name each other.
- The help shows the bindings that are in force, and an accepted
  configuration binds no key sequence twice.

What the library takes from elsewhere without proof stands in doc comments at
the functions that call it: dates (`clock`), display widths (`width`), lower
case (`help`) and appending to a string (`text`).
