# jmds

**Just My DeepSeek**: the engine of a terminal coding harness for one model, verified with
[Verus](https://github.com/verus-lang/verus).

Four tools, one conversation, and a real shell. What the engine decides is a function with a
contract that Verus proves; what it does to the world (the network, files, processes, threads) is
ordinary Rust around it.

## Layout

| Path | What lives there |
|---|---|
| `src/` | The library. Every function is verified, but for the small ones that call an outside crate: their contracts are trusted (see below). |
| `app/` | The engine at work: HTTP, the file system, processes, terminals and threads. |
| `tests/` | Tests of the library, with the real outside crates. |

The modules of `src/`:

| Module | What it is about |
|---|---|
| `text`, `paths`, `json`, `toml`, `ratio` | What the rest is written with. |
| `message`, `client`, `stream`, `usage` | One turn: the request, when it is sent again, the events of the answer, and what it cost. |
| `agent`, `event` | The turn loop, and what it tells. |
| `tools` | `read`, `write`, `edit` and `bash`, how much they show, and where a call lands. |
| `pane`, `pty` | The layout, and the terminals in it. |
| `session` | Session files: appended a line at a time, and read back strictly. |
| `watch` | Which changes of the project are worth a word. |
| `config`, `logger`, `prompt` | What the user writes down. |

## What is proved, and what is trusted

Contracts are stated over mathematical models: the characters of a text, the tree of a document, the
layout of the panes. A property that relates several functions is a public proof function whose name
begins with `law_`, at the end of its module.

What comes from outside crates goes through a small function whose doc comment begins with
`Trusted:` and says what is claimed of the outside function. Nothing else is taken on trust.
