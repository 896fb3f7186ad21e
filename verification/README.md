# filefile

Build a directory tree from a YAML description (a *Filefile*), or describe
an existing tree as one. The program is `ff`:

- `ff Filefile.yaml` or `ff apply -p <dir> -i <file>` builds the tree;
- `ff https://example.com/Filefile.yaml` fetches the Filefile first; its
  `!git` and `!sh` tags run only with `--allow-remote-ops`;
- `ff generate -p <dir> -s` prints the Filefile of a tree.

A Filefile is a YAML mapping: text makes a file with that text, an empty
value an empty file, a nested mapping a directory, `!git <url>` a clone and
`!sh "<cmd>"` a file holding what the command prints.

## Layout

- `src/` is the library, verified with Verus: what the text of a Filefile
  means (`node::nodes_of_text`, which reads it with serde_yaml, and
  `node::convert_value`), the steps that apply it (`commands`), the walk
  that reads a tree (`walk`) and the text it is written as
  (`node::filefile_text`), tags (`operations`), Unix path text (`paths`),
  white space and words (`text`), and the depth-first visit (`dfs`).
- `app/` is the program around it: the command line, files, processes and
  HTTP.
- `tests/` runs the library on examples.
