# App Launcher

A launcher for Windows applications. It keeps a list of programs, takes in `.exe` files and `.lnk`
shortcuts that are picked or dropped on its window, starts them, and follows changes to its list
on disk.

`src/` is the library: every rule of the launcher, with contracts that Verus proves. A few contracts
are believed without proof, those of what comes from outside: the rows of `slint` in `rows`, and
`str::to_lowercase`, `String::push` and `char::from_u32` of the standard library in `text`.

| Module | What it holds |
| --- | --- |
| `utf16` | text as UTF-16 code units, and back |
| `winpath` | Windows paths: prefix, file name, stem, extension, parent, join |
| `apps` | the list of applications: adding, deleting, reading back |
| `rows` | the rows of the window, a `slint::VecModel` |
| `shell_link` | the order of the COM calls that resolve a shortcut |
| `data_files` | where the files of the launcher lie, and how a change is noticed |
| `settings` | the settings and their defaults |
| `launch` | starting an application, and the notice when that fails |
| `dnd` | the events of the window |
| `text` | operations on strings taken from the standard library |

`app/` is the program around it: the window, the dialogs, the files and the calls into Windows.
To build it for Windows, `slint` needs, beside the features that `Cargo.toml` names for the library,
a backend, a renderer and the feature `unstable-winit-030`.
