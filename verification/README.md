# umber

The verified core of a keyboard-first code editor, with the editor around it.

`src/` is the library. Every item in it is checked by Verus: what a function
returns or changes is stated in its `ensures`, over mathematical models of the
data, and the public `proof fn`s state what holds across functions.

| Modules | What they hold |
| --- | --- |
| `text`, `bytes`, `number`, `fixed`, `single`, `case`, `order`, `table`, `paths` | texts, numbers as text, orders, sorted tables, paths |
| `json` | JSON values, read and written by `serde_json` |
| `buffer`, `caret`, `history`, `frame`, `words`, `syntax`, `git` | the text of a file on a `ropey` rope, editing it, undoing that, what is shown of it, highlighting, changed lines |
| `commands`, `builtins`, `config`, `features`, `settings` | commands and their fuzzy search, configuration, features, the settings page |
| `manifest`, `broker`, `host`, `guest`, `loading`, `discovery` | modules: manifests, permissions, who answers a command, what guests may read |
| `agents`, `agent_rpc`, `dashboard` | sessions of an agent, its messages, the agents page |
| `lsp`, `proto`, `messages`, `daemon`, `remote`, `update` | protocols, path confinement, signed updates |
| `search`, `pickers`, `palette`, `lists`, `overlay`, `pages`, `opening`, `input`, `pointer` | searching, pages, the keyboard and the pointer |
| `panes`, `tabs`, `panel`, `terminal`, `signals`, `popout`, `strip`, `renderer`, `latency` | panes, tabs, terminals, what a frame is made of and in what order it is drawn |

What outside crates do is stated in the `assume_specification` items and the
`external_body` functions, each with a comment that says what is believed.

`app/` is the program: windows, the GPU, processes, files and the network. It
hands the library plain values and does what the library asks for. Lengths in
pixels are floating point and live there.

`tests/` runs the library.
