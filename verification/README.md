# ce-crash: post-mortem capture for every app on the mesh

An app dies at night on a board in another building. `ce-crash why board-sensor`, from any machine,
answers with the evidence: how it ended, the last lines of stderr or the stack, the command line,
when, and on which node.

`src/` is the library, verified with Verus; `app/` is the command line program around it.

```
ce-crash run [--app A] -- <cmd...>     run a command; if it crashes, seal a capsule and index it
                                       (`--provider` stands before the `--`)
ce-crash list [--app A]                crash groups, newest first
ce-crash why <app> [--node N]          the newest crash of an app
Common flags: --provider <node-id>  --cap <token>  --json
```

## The library

| module     | what it states                                                                      |
|------------|-------------------------------------------------------------------------------------|
| `capsule`  | what a capsule of a run holds; of the environment the names alone                    |
| `event`    | the index event of a capsule, and the crash that an event tells of                   |
| `group`    | crashes by cause: each counted once, each group showing its latest, the newest first |
| `render`   | the report of a capsule, to the character                                            |
| `report`   | the list of groups, and which crash `why` is about                                   |
| `args`     | flags, positional arguments, what to run and under which name                        |
| `paths`    | the name of a file, and a file in a directory                                        |
| `run`      | what follows from how the child ended, and where a capsule goes without the mesh     |
| `tail`     | the lines of a stream, and the last of them                                          |
| `protocol` | requests to the ce-debug service, its replies, and which node is asked               |
| `calendar` | milliseconds as Gregorian dates, each day having one date                            |
| `seconds`  | durations with one decimal, as double-precision arithmetic rounds them               |
| `clock`    | the time now, counted from the Unix epoch                                            |
| `text`     | lines, blanks, numbers, padding                                                      |
| `order`    | texts in order                                                                       |
| `json`     | JSON documents; the calls into `serde_json`                                          |

What is taken on trust are the calls in `json` and `clock`, the two calls into `std::path` in `paths`
(made only off Unix), `String::from_utf8_lossy` in `tail` and `String::push` in `text`, each with a
comment that says what is claimed of it.

A capsule records the names of environment variables, never their values. The command line and the
tail of stderr are kept as they are: do not pass secrets on command lines that are wrapped.
