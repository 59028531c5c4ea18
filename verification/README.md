# csd

Search and replace across files with regular expressions.

`src/` is the library, verified with Verus:

- `pattern` — a compiled regular expression (`regex` crate) together with its
  source; the calls into the crate and what they promise.
- `lines` — the byte ranges of a text's lines.
- `interactive` — the session that proposes each match of a text and applies
  the user's answers, with its specification and the laws about declining and
  quitting.
- `replace` — what happens to one file: read mode, plan, outcome.
- `cli` — the command line's patterns, their compilation, back-reference
  conversion, counting and the closing report.
- `walk` — which walked or piped paths are processed.
- `confirm` — how a reply to a prompt is read.
- `text` — string helpers and UTF-8 lemmas.

`app/` holds the program: argument parsing, the directory walk, file input
and output, the terminal prompt and the parallel loop.
