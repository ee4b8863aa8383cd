# czkawka_core

Finds duplicated files: files that share a name, a size, or a hash of their
content. The library in `src/` decides which files are taken in, how they are
grouped, counted and hashed, which duplicates go and what is said of it all, and
what step of a search follows on another; its behaviour is stated in contracts
that Verus proves. `app/` reads folders and files, runs the threads, asks whether
the user wants to stop, keeps the file of known hashes on disk and removes files.
Which directories, extensions and items are accepted is for the user of `app/` to
say.

| module | what it holds |
| --- | --- |
| `model` | files, paths, settings, messages, statistics |
| `finder` | the finder, its settings and results, the course of a search |
| `scan` | walking through folders and taking files in |
| `counting` | leaving single files out and counting groups |
| `digest` | hashing what is read of a file |
| `hashing` | grouping files by their hashes |
| `reuse` | using hashes that are already known |
| `work` | what one stage of hashing leaves to the next |
| `cache` | the file in which hashes are remembered |
| `removal` | which duplicates are removed, and what came of it |
| `report` | results as text |
| `progress` | how far a search has come |
| `laws`, `walk`, `narrowing`, `contents` | what holds of a search as a whole |
| `text`, `textmap`, `grouping`, `groups`, `listing` | texts, maps and groups |

What is trusted: the lower case and the debug form of `str`, the equality and the
debug form of `Path`, the `blake3` hasher and the size format of `humansize`. Each
trusted function says above its contract what is taken for granted.
