# pimgext

Extracts `.pimg` files (PSB layered images): writes every binary of the file
and the tree of its values as JSON to `raw/`, converts the TLG5 images to PNG,
and composites the layers onto the base layer in `composite/`.

Its behaviour follows Python's semantics throughout: argparse, os.path,
json.dump with indent=2, repr(), and the recursion limit of 1000 frames.

Layout:

- `src/` is the library, verified with Verus. Each module states its
  behaviour as `requires`/`ensures` over spec functions:
  - `args`: command line parsing (abbreviations, bundling, `--`, errors).
  - `psb`, `value`: the PSB file format and the tree of values it holds.
  - `tlg5`: the TLG5 image decoder.
  - `png`: PNG chunks, scanlines and CRC-32.
  - `compose`: alpha blending of a layer onto a canvas.
  - `json`: json.dump of the value tree.
  - `extract`: the decisions of the extractor (file names, the raw/ plan,
    layer names and the base layer, error lines).
  - `pypath`, `ntpath`: os.path for POSIX and Windows paths, OSError texts.
  - `normlaw`: normpath leaves its own result unchanged, and rejoining
    what split gives normalises to the same path.
  - `literal`: what the body of a quoted str or bytes literal stands for;
    repr() is proved to read back as its argument.
  - `pyfmt`, `num`, `text`, `error`: repr(), `==` with ints, digits, errors.
- `app/` is the program: file and stream I/O, zlib through `libz-sys`, and
  the parts that rest on floating-point numbers.
- `tests/` runs the library on concrete inputs.
