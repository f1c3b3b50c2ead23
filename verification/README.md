# jancox

Unpacks Android ROM zips into folders that can be edited, and packs the folders
into a new ROM zip. The logic is a library verified with Verus; the program
around it does the I/O.

- A ROM zip holds partitions as block data (`<part>.transfer.list` with
  `<part>.new.dat[.br]`) and other files.
- A partition is an ext4 image. It is extracted into a folder; owners, modes,
  SELinux labels, capabilities, symlinks and filesystem parameters are kept in
  text files, so that any folder will do.
- The folder and the text files are built into an image again.

## Layout

| Module | What it states |
|--------|----------------|
| `rom` | ROM zips: what unpacking and repacking do, the settings and state files, the sizes of dynamic partitions, the name of a new ROM |
| `build` | a folder and its metadata as an image tree, and the image of the tree |
| `extract`, `visits` | an image as files and metadata |
| `fs::ext4`, `fs::erofs` | readers of images |
| `fs::mkext4`, `fs::mkerofs` | writers of images |
| `factory` | factory images: partition groups, vbmeta flags, stored zip entries |
| `archive`, `paths`, `br` | zip files, where their entries go, and brotli, on the `zip` and `brotli` crates |
| `dat`, `sdat` | block data with brotli |
| `cli` | the arguments of the commands |
| `words`, `apart`, `text`, `bytes` | texts and bytes, put together and taken apart |

Contracts are stated over sequences of characters and bytes. What is promised
beyond single functions stands in public proof functions, among them:

- `ext4_round_trip`, `erofs_round_trip`: reading an image gives back the tree
  that it was written from;
- `metadata_reads_back`, `directory_reads_back`, `xattr_reads_back`: what one
  node, one directory and one xattr of an image read back as;
- `groups_are_filled`, `runs_are_maximal`, `storing_fails_when_full`,
  `counted_blocks_are_taken`: how blocks are handed out to content, and how
  many it takes;
- `ext4_extraction_is_complete`: an extraction visits every node of an image;
- `metadata_is_kept`, `parameters_are_kept`, `listed_symlinks_stay`,
  `added_files_get_defaults`, `deleted_files_are_left_out`: what a rebuilt
  partition holds;
- `others_are_unpacked`, `outside_is_passed_over`: what becomes of the entries
  of a ROM zip that belong to no partition;
- `partition_round_trip`, `partition_is_found`, `rom_file_round_trip`: the
  partitions and the files of a packed ROM are unpacked again, with the content
  that they had;
- `state_round_trip`, `op_list_fits`, `cleanup_keeps`: the files of the work
  folder.

`app/` is the `jancox` program. `tests/` runs the library.
