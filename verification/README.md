# pd2tools

Tools for the asset formats of the Diesel engine, written in Verus: each
function states what it does in `requires` / `ensures`, and Verus proves it.

- `src/` is the verified library:
  - `diesel_hash`, `hashindex`: the Idstring hash and the hashlist that names
    hashes;
  - `bundles`: `bundle_db.blb`, the package headers, and the asset database
    built from them;
  - `filesystem`: the read-only filesystems that show the database (or a fixed
    test tree) as files and folders, and the one that renames and converts
    files by a table of rules (string tables shown as JSON, script data as
    generic or custom XML, sound bank lists as text);
  - `formats`: model containers and the mesh made from their geometry, OIL
    exports, save data, string tables, sound bank lists, script data in
    binary, generic XML, custom XML and Lua-like text; XML is written
    through the `xmlwriter` crate;
  - `scriptdata`: documents of script data, built table by table;
  - `hashlist_scan`: which files the string scan reads and how its results
    are ordered;
  - `sorting`, `text`, `read_helpers`: the orders, string facts and byte
    reads the rest builds on.
- `tests/` runs the library on concrete inputs.
- `app/` is the command-line program: argument handling and file access.

Floats that files carry (save data, script data, vertex attributes) are kept
as the bits of their 32-bit values. Turning such bits into decimal text is
floating-point work, so where a number is written as text (the XML forms of
script data) the caller hands the library a number formatter; the program
in `app/` passes the standard library's `f32` display.

The library writes script data as generic XML, custom XML and Lua-like
source; it does not read XML back. Model sections are checked
against their layouts when a model is read (counts, texts, kind tags) and
kept as bytes, except geometry, which is decoded into its attributes.

The text of a sound bank list shows its lookups in the order their entries
come in the file, and escapes quotes, backslashes and ASCII control
characters in its strings.
