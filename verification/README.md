# grass

`grass` downloads all of your GitHub gists to a local directory, keeps them in
sync, and searches them. Re-running it only downloads gists that are new or
that changed remotely.

The library under `src/` is written in Verus: each function states what it does
in its `requires` and `ensures`, and is proved to do it. The program around it,
which talks to GitHub, the disk and the terminal, is ordinary Rust under `app/`.

## What is proved

| Module | What it holds |
| --- | --- |
| `auth` | The order in which sources are asked for a token |
| `cli` | What the options of the command line ask for |
| `client` | URLs, headers, paging and retries of requests to GitHub |
| `model` | Gists and their files |
| `naming` | Slugs and folder names |
| `paths` | Joining paths, and file names that stay in their directory |
| `state` | What is recorded about each gist, and its file |
| `sync` | Which gists to download, what to do on disk for each, tallies, pruning |
| `search` | Calling `rg` or `grep`, reading what they print, grouping matches |
| `display` | Labels, summaries, highlighted lines, the layout of search results |
| `json`, `outline` | JSON values, and the members and items of JSON text |
| `strmap`, `order`, `text` | What the others are built from |

Public proof functions whose names begin with `law_` state what holds across
functions: that a run without errors leaves nothing to do for the next one, that
a state is read back as it was written, that no file name leads out of a gist's
folder, that every hit is listed under its gist and file, and so on.

## What is trusted

Calls into `serde_json`, `serde`, `console`, `reqwest` and the parts of the
standard library that Verus does not know stand in small functions marked
`external_body`, each with a comment that names the call and says what is taken
for granted about it.

## Storage layout

```
gists/
  .grass-state.json                 # sync state (do not edit)
  my-notes-a1b2c3d4/
    .grass-meta.json                # gist metadata
    notes.md
  deploy-script-f2eeaeee/
    .grass-meta.json
    deploy.sh
```
