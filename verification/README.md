# Shiran

Shiran takes a bounded, best-effort snapshot of the Linux `/proc` and `/sys` trees as
JSON. It does not know their schemas, and does not need to.

```sh
shiran > snapshot.json
```

## How it is built

`src/` is the library. It decides what is looked at, how far files are read, and what a
snapshot records about each path; it is written in Verus, and every function states what
it does and is proved to do it. It does not touch the disk. A snapshot is a `Session`: it
names a `Request`, is told a `Reply`, and goes on until it has ended.

* `status` reads the user and group out of `/proc/self/status`.
* `text` tells text from binary data.
* `order`, `listing` and `path` deal with names, paths and keys; `keys` says how keys tell
  paths apart.
* `budget`, `error`, `entry` and `entries` hold limits, failures and what is recorded.
* `capture` holds the decisions about one path, `walk` the walk of one tree, `snapshot`
  the session that walks both, and `protocol` what they ask for and are told.
* `tree`, `trees` and `observation` say what a walk and a session make of whole trees,
  and that whatever they are told is such trees.
* `bounds` says how much a snapshot holds and how much is read for it; `leaves` where in a
  tree its entries stand, and `fidelity` what they say about it.

`app/` is the program: it parses the command line, looks things up on the disk, and writes
the JSON document.

## What is taken on trust

`String::from_utf8` and `String::from_utf8_lossy` of the standard library; both are
described in `text`.

## What is recorded

Symbolic links are recorded, not followed. A file is captured whole or not at all; what is
left out, or cannot be read, is recorded with the reason. A snapshot fails only where
`/proc/self/status` cannot be read or does not tell the user and group, or where a root is
not a directory or cannot be listed.
