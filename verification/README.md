# ext4fs-tool

A read-only reader for ext2, ext3 and ext4 volumes, written in Verus, with a graphical
browser around it.

## The library (`src/`)

The library does no input or output. An `Ext4` volume holds what its superblock and group
descriptors say, and the blocks that it has been given so far. Every operation works on
those blocks. One that needs another block answers `ExtError::Pending` with its number; the
caller reads the block, hands it over with `supply_block`, and asks again. Long walks
(counting, extracting, planning, filling a table) keep what they have found out and go on
where they stopped.

What each operation returns is stated exactly, as a function of the volume's model
(`VolumeView`). Supplying more blocks never changes an answer that did not ask for one: the
laws named `law_..._settled` say so for every operation.

| modules | what they hold |
| --- | --- |
| `text`, `bytes`, `names`, `format`, `order` | texts, little-endian fields, safe file names, sizes and dumps, sorting |
| `error`, `cache`, `superblock`, `group`, `inode`, `volume` | opening a volume, its blocks and inodes |
| `extent`, `indirect`, `data` | from logical to physical blocks, and file contents |
| `dir`, `path`, `circles` | directories, linear and indexed, and following paths and links |
| `count`, `tasks`, `filewrite`, `extract`, `plan`, `jobs`, `copy`, `progress`, `trace`, `jobtrace`, `ending` | copying out of a volume, in turn or with several workers |
| `partitions`, `device` | MBR and GPT tables, disks |
| `browse`, `selection`, `labels` | what a file browser shows |

## The program (`app/`)

`app/` opens files and devices, runs the loops around the library, writes copied files and
draws the window.

## Tests (`tests/`)

`tests/volume.rs` builds small volumes in memory and reads, lists, counts and copies them;
`tests/parts.rs` covers the rest.
