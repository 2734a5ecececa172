# zipmount

Reading zip, tar and tar.gz archives without unpacking them: listing,
finding by name, searching contents, checking every file against the
archive's own checksums, and the pieces that a mounted view of an archive
needs (attributes, directory listings, reads at an offset, caches).

The library under `src/` is written in Verus: each function states in its
contract what it returns, and Verus proves it. Calls into other crates
(libdeflater, flate2, encoding_rs, the RustCrypto crates, grep-regex,
fluent-bundle, rustc-hash, zeroize) stand behind small trusted functions
whose contracts say what those crates' sources show.

- `zipfmt`, `tarfmt`, `entry` — the archive formats: end of central
  directory, zip64, extra fields, local headers; ustar, GNU and pax headers.
- `names`, `sanitize` — entry names: code pages, and components Windows can
  open.
- `tree` — the directory tree built from the entries: every entry at its
  path, case-insensitive lookup, paths, walks, statistics.
- `zipcrypt`, `secret`, `backend`, `reader` — decryption (ZipCrypto, WinZip
  AES), decompression, tar.gz expansion, reads at an offset.
- `cache`, `blockcache`, `lru` — the content caches and their budget.
- `seek` — the checkpoint index of a streaming deflate reader.
- `glob`, `search` — name patterns and content search.
- `integrity` — verification against stored checksums.
- `i18n`, `messages` — the language the program speaks, and its messages.
- `fsview`, `posix`, `mounts`, `shell`, `winmenu`, `cmdline`, `console` — what
  the mount backends, the context menu and the command line decide.

`app/` is the command-line program around it (`ls`, `find`, `grep`,
`search`, `info`, `verify`, `mounts`, `language`): arguments, files,
settings, printing. Message catalogues are read from a `locales` directory
beside the program, one `<code>.ftl` per language; the chosen language is
kept in a settings file under the user's configuration directory.
