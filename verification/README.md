# canvas-fuse

Mounts Canvas contexts as live folders. What a mount shows, what a save, a rename or a removal
does, and what is sent to the server for it, is decided by a library whose behaviour is stated in
contracts and proved with Verus. A thin program around it talks to the kernel, the network and the
disk.

```
<mountpoint>/
└── Contexts/
    └── <context-id>/
        ├── .context.json    the context's metadata, its current url among it
        ├── Tabs/            *.url
        ├── Notes/           *.md
        ├── Todos/           *.md
        ├── Links/           *.url
        ├── Files/           real files, fetched when they are read
        ├── Emails/          *.json
        └── Other/           *.json
```

## Layout

`src/` is the library. Its public functions state what they do in contracts; no module does I/O.

| Modules | What they hold |
| --- | --- |
| `state`, `model`, `docmap`, `listing`, `naming`, `workspace` | the tree of a mount, and what a new list of contexts, documents, trees or paths does to it |
| `wellformed`, `whole`, `contexts`, `laws`, `showing`, `inodes`, `notices`, `workspace_laws`, `tree_listing`, `neatness` | what holds of every tree, and across several calls |
| `render`, `markdown`, `names` | what a document looks like as a file, and how it is called |
| `writes`, `overlay`, `write_laws`, `file_laws` | files that are written: buffers, saves, removals, renames |
| `fsimpl`, `blobs` | what the kernel is answered, and the cache of file contents |
| `api`, `json`, `events`, `worker` | requests, answers and events of the server |
| `config`, `runtime`, `unmount`, `reports` | the endpoint, the records of running mounts, how one is taken down, what the commands print |
| `text`, `strmap`, `time`, `posix` | strings, maps keyed by strings, points in time, error numbers |

Outside work is a step in a conversation: the library hands out a job (a save, a download, a
request), the program performs it, and hands the outcome back.

What is not proved is said where it stands: functions marked `external_body`, and
`assume_specification` items, state what is believed of `serde_json`, `chrono`, `libc` and parts of
the standard library.

`tests/` runs the library on concrete values. `app/` is the program: the command line, HTTP, the
websocket, the database of names, the FUSE session and the daemon.

## Laws

- A context shows its documents: each listed document is found in its directory, with its
  content, and nothing else is there.
- A document keeps its inode as long as it stays in the view; no inode is used again.
- A document that was given a name keeps it, whichever others come, go or have its title.
- A refresh that brings nothing new changes nothing and tells the kernel nothing; one that removes
  or changes something tells all of it.
- A context that stays is left alone, but for its metadata.
- Every node is listed in its directory.
- What was written is read back, before it is saved and after. A save that fails loses nothing.
- A listing shows what a lookup finds, each name once.
- The cache stays within its budget, or holds one blob alone; a blob that many read at once is
  downloaded once.
- Reading page by page reads all of a list.
- A context is subscribed to until the server confirms it, and again on a new connection.
- An unmount comes to its end, and never says that a mount is gone that the kernel still has.
- A todo and a note read back as they were written.

Each stands in `src/` as a proof function named `law_..`, with the inputs that it leaves out.
