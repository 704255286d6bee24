# DS Code

The core of a code agent that works with any model behind a chat interface: it
keeps a conversation inside the model's window, runs the tools that the model
asks for, plans and reviews longer tasks, remembers what was said, and extends
itself with skills and tool servers.

`src/` is the library. Every function in it has a contract, proved by Verus.
Files, processes, sockets, the database and the clock are not in it: where a task
needs them, the library is a state machine that says what to do next and takes
the outcome. `app/` performs those steps.

| Module       | What it decides                                                        |
| ------------ | ---------------------------------------------------------------------- |
| `agent`      | the loop of a turn, compression, tool chains, errors that are withheld |
| `auto`       | tasks in phases: splitting them, running them, judging their progress  |
| `magi`       | scrutiny, execution and review of a subtask until it is good           |
| `memory`     | what is stored of a conversation, and how it is found again            |
| `config`     | settings in layers, keys, and edits that leave the rest of a file alone |
| `extensions` | skills: finding, reading, writing, installing; tool servers            |
| `providers`  | messages, errors and channels                                          |
| `cli`        | arguments, and what is shown of a turn                                 |

What holds of several functions together is a public proof function whose name
begins with `law_`.
