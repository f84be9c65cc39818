# memdecomp

Recovers pages that the Windows 8/10 memory manager has compressed
(`COMPRESSION_FORMAT_XPRESS | COMPRESSION_ENGINE_STANDARD`) from page files,
memory dumps, or `vaddump` directories of the `MemCompression` process. Pages
that are truncated (page slack, end of file) are recovered as far as they go.

- `src/` is the library, verified with Verus: the stream format, the decoder, the
  scanner, the recovery of a whole piece of data, and the laws they keep to.
- `app/` is the command line program around it.
- `tests/` runs the library.

```
memdecomp <input file-or-dir> <output-file> [--threads N] [--min-size BYTES] [--quiet]
```

- `input` may be a file or a directory, all files of which are scanned.
- `--min-size` (default 1024) is the number of decompressed bytes from which on a
  candidate counts as a page.
- `--threads` defaults to the number of logical CPUs.
