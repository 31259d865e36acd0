# mtag

Reads and writes the cover art of audio files: MP4/M4A containers by their
atom structure, MP3 files through their ID3 tag (`id3` crate), FLAC files
through their metadata blocks (`metaflac` crate).

- `src/` is the verified library (Verus):
  - `atom.rs`: big-endian fields, atom headers, the byte-by-byte scan and
    the sibling walk that find atoms;
  - `m4a_read.rs`: locating the `covr`/`data` atoms and extracting the image;
  - `m4a_write.rs`: building the `covr` item and the `udta`/`meta`/`ilst`
    atoms, and inserting them into `moov`;
  - `chunk_offsets.rs`: the search for `stco`/`co64` tables after `moov`
    has grown, and the shifting of their entries;
  - `mp3.rs`, `flac.rs`: the front cover of ID3 and FLAC tags;
  - `format.rs`: format detection by extension, MIME guessing, file naming,
    error messages;
  - `laws.rs`: properties of the library as a whole.
- `app/` is the command-line program: argument parsing, file I/O, and the
  calls into the library.
- `tests/` exercises the library on concrete inputs.
