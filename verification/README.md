# dearlystars

Tools for the data formats of a Nintendo DS visual novel: `.bbq` script files,
`.bin`/`.idx` archives, `.gld` sprite sheets and `.nds` roms, with their LZ10
and backwards-LZ compression. The library in `src/` is verified with Verus;
`app/` is the command line tool that reads and writes the files and hands
their bytes to the library.

## Layout

- `bytes`, `text`, `sjis`: little-endian fields, character and string
  helpers, Shift JIS through `encoding_rs`.
- `lz10`, `blz`: LZ10 and backwards-LZ compression and decompression.
- `bbq`, `bbq_read`, `yaml`, `yaml_read`, `script`, `csv_rows`: `.bbq` files as
  bytes and as YAML, their strings and message scripts, and the rows of the
  translation tables.
- `ez`: `.bin`/`.idx` archives, extracted into steps and rebuilt entry by
  entry.
- `gld`, `gld_checks`, `pictures`: `.gld` sprite sheets and their pictures as
  PNG files through `png`.
- `nds_tree`, `nds_rom`, `nds_build`, `nds_write`, `exec_pack`, `modcrypt`,
  `node_order`, `exec_strings`: reading a rom's layout and file system,
  building its name table and writing a rom with its executables
  BLZ-compressed, DSi modcrypt (AES-CTR through `aes`), and the string table
  of the executables.
- `roundtrip`, `byte_roundtrip`, `archive_roundtrip`, `blz_roundtrip`,
  `fnt_roundtrip`, `rom_roundtrip`: what reading back gives of what was
  written.

The tests under `tests/` run the library with the outside crates linked.
