# Latte Lens

A read-only repository viewer: the working tree, source previews and Git diffs in
one terminal, with folds, outlines and code navigation through language servers.

The decisions are a library whose every function is verified with
[Verus](https://github.com/verus-lang/verus). Files, processes, sockets and the
terminal belong to the program around it.

## Layout

- `src/` is the verified library. Every module works on plain values: bytes, text,
  numbers and the library's own types. Paths are bytes with a style, that of Unix or
  that of Windows, which the program hands in. What it takes from other crates (parsing of
  source code, Markdown and URLs, highlighting) stands behind small trusted
  functions whose doc comments say what is claimed of them.
- `tests/` runs the library.
- `app/` is the program: command line, terminal, Git commands, sockets and language
  server processes.

## The library

| Modules | What they decide |
| --- | --- |
| `git` | What Git's reports say, and which diffs to ask for and how to show them |
| `preview`, `highlight` | Which provider shows a file, how much of it, and in which colours |
| `folding`, `structure`, `markdown`, `syntax`, `source`, `snapshot`, `document` | Folds, symbols and tokens of a document |
| `positions`, `locations`, `outline`, `targets`, `paths`, `windows` | Positions, ranges, URIs and paths that come from a language server |
| `framing`, `rpc`, `messages`, `protocol`, `json`, `settings`, `language` | The wire format, the messages and the configuration |
| `session`, `manager`, `requests`, `frames`, `retirement`, `cleanup`, `failures`, `payload`, `completions`, `disk`, `process` | The life of language servers and of the requests that they serve |
| `ipc`, `routing`, `suggestions` | How running instances find each other, and what a path on the command line means |
| `bytes`, `text`, `order` | Bytes, text and stable ordering |

Public proof functions whose names begin with `law_` state what holds of several
functions together, such as that a framed message is read back whatever way it is
cut on the wire, or that folds nest.
