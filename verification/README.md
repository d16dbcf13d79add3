# diredit

Edit directory contents (rename or delete files, change permissions, owners
and modification times) by editing a text listing, in `$EDITOR` or in a pipe:

```
diredit ./tmp/ | sed 's/\.txt$/\.md/' | diredit
```

Each listing line reads `inode mode owner group time name`, for example

```
abc123 100644 user group 2014-04-30T10:11:12+01:00 /tmp/example.txt
```

## Layout

- `src/` is the library, written in Verus and verified:
  - `text.rs`: whitespace and digit classes, trimming, UTF-8 byte offsets,
    writing and reading numbers;
  - `datetime.rs`: writing times, `timegm`, reading a written time back;
  - `command.rs`: reading listing lines into commands keyed by inode;
  - `listing.rs`: listed files and the text of listings;
  - `plan.rs`: the file operations that applying commands comes to, the
    proof that a printed listing reads back with a command for every file,
    and the proofs that an unedited line or listing changes nothing;
  - `options.rs`: the command line.
- `app/main.rs` is the program around it: reading directories, the user and
  group databases and local time through the C library, running the editor,
  and carrying out the planned operations.
- `tests/` holds the tests of the library.
