# fsvfs

A read-only virtual filesystem over FromSoftware DVDBND archives (BHD5
indexes with BDT data files), with its core written in Verus and proved
against its contracts.

## Layout

- `src/` is the verified library:
  - `bhd5` parses the archive index (header, buckets, file entries) from
    bytes; `rsa` decodes the RSA keys and decrypts the index header;
    `keys` matches key files to archives.
  - `hash` computes the path hashes that name files; `files` turns the
    index entries into named files, with their encryption records kept in
    the byte store of `encryption`, which also decrypts file data read at
    any offset.
  - `components` and `filesystem` (with `path`, `names`, `tree`,
    `object`, `layout`, `eytzinger_layout`) build the read-only filesystem
    from the files of several archives, each directory's children kept in
    the eytzinger layout of the `eytzinger` crate, and answer lookups by
    path and by inode; `mount` holds the decisions of a read.
  - `cli`, `archives`, `unaligned`, `libsais` and `trie` hold the command
    line, the archive paths, little-endian integers, the string text for
    suffix arrays and the compressed trie paths.
- `tests/` runs the library on concrete values.
- `app/` is the program around it: the command line parser, reading files
  from disk, and the FUSE mount.
