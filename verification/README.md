# code2prompt

An interactive command-line tool that collects the text of chosen files
into one buffer, renders it with a template and copies it to the
clipboard.

The library under `src/` is written in Verus and verified:

- `text` — white space, trimming, words, ASCII case folding, search and
  replacement, decimal numerals and padding, stated over `Seq<char>`.
- `path` — paths seen through their components as on Unix (`/` the only
  separator, no drive prefixes); path order, path equality and
  `ends_with`, with the order proved a strict total order. Windows paths
  with `\` separators or prefixes are outside this model.
- `config` — the settings and their defaults.
- `commands` — reading a line as a command, and what is printed instead
  of running a malformed or unknown one.
- `context` — the files held, one per path in path order: adding,
  removing by path or pattern, clearing, rendering, the file list, the
  statistics, and the sizes shown to people.
- `clipboard` — which command receives the clipboard text, and the steps
  to find and run it.
- `file_utils` — glob patterns (through the `glob` crate) and the final
  list of paths in path order, each once.
- `laws` — what holds across operations: a context keeps its files in
  path order and is determined by the files it holds, so its output does
  not depend on the order files were added; adding is idempotent and
  commutes between paths, removing undoes adding, a pattern splits the
  files; the sorted unique list of paths is determined by its input and
  can be built part by part; a command depends on the words of its line.

`app/main.rs` is the program: the prompt (`rustyline`), the
configuration file (`toml`, `serde`), walking directories (`ignore`),
reading files and running the clipboard and probe commands.
