# Renamer

A photo library organizer: a catalog of what is in a folder of pictures, duplicate
detection with reversible removal, ratings and hidden images, a slideshow, and renaming
by metadata templates, on disk or on pCloud.

- `src/` is the library. Everything that decides or computes is here, and every function
  has a contract that Verus proves. The contracts of the functions that only make a call
  into another crate, or into the standard library, are believed.
- `tests/` runs the library on examples.
- `app/` is the window around it: files, the database file, threads, the network and
  drawing.

## The library

| Module | What it does |
|---|---|
| `text`, `pathname`, `order`, `clusters`, `union_find`, `single` | texts, paths, stable sorting, classes of equal or linked things, rounding as floating-point numbers do |
| `picture` | how large decoded images are, and what their samples are |
| `hashing` | content hashes, perceptual hashes and radius search among them |
| `colour` | dominant colours and the order of hues |
| `metadata`, `template` | what is known of a file, and names made from it |
| `kind` | photograph, screenshot or saved image |
| `catalog`, `schema` | the catalog's rows, what users say of images, the quarantine ledger, and the tables they are kept in |
| `indexer`, `rescan`, `thumbs` | bringing a catalog up to date with a folder, and what is left to do the second time |
| `dupes`, `regroup`, `faces` | duplicate groups, whatever order rows come in, and people |
| `quarantine` | moving duplicates away and back |
| `engine`, `pcloud` | rename plans, here and on the server |
| `slideshow`, `paths` | playback order, and where state is kept |
| `app` | the program's state: requests, results and what the views show |

What the library takes from other crates is stated where it is called: BLAKE3 hashes,
resizing and encoding of images, EXIF blocks, and dates in words.

Paths are texts with `/` between components. Work that needs the disk, the clock or the
network is done by the caller, which hands in what came of it.
