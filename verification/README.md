# git-plan

Fine-grained git staging: stage the changes of a file by hunk (`--hunks a,c`)
or by line number (`--lines 3-8,15`) instead of the whole file.

The library (`src/`) is verified with Verus:

- `diff`: the structured diff of a file (`FileDiff`, `Hunk`, `DiffLine`) and
  `build_file_diff`, which turns what the repository reports into it.
- `filter`: the unified-diff patches of the whole file, of selected hunks
  and of selected lines, each specified exactly by a spec function over the
  diff's mathematical value.
- `display`: the rows of the labelled, numbered view of a diff, with the
  line-number column already right-aligned.
- `stage`: parsing a patch text into git's diff object (through `git2`).
- `selection`: parsing of hunk letters, line ranges and prompt input.
- `text`: trimming, splitting, and decimal parsing and printing on
  characters.
- `laws`: proofs that tie these together (selecting every hunk or line is
  staging the whole file, a shown label or number selects exactly its hunk
  or line, line filtering keeps each hunk's old side, written label lists
  and line ranges parse back).

`app/main.rs` is the command-line program: it reads the repository with
`git2`, prints with `colored`, parses arguments with `clap`, and applies the
parsed patch to the index.
