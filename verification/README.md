# pixel-palette-colorizer

Remaps the pixels of images onto a fixed colour palette, in a colour space
chosen by name (`rgb`, `hsl`, `lab`, `oklab`).

- `src/` is the verified library:
  - `color_space.rs`: the registry of colour-space names, the `ColorSpace`
    trait (an order of distances) and plain RGB;
  - `processor.rs`: nearest-colour remapping of an RGBA pixel buffer, with
    the laws of the remapping;
  - `text.rs`, `hex.rs`: UTF-8 text, trimming, and hex palette texts;
  - `palette.rs`: palettes from hex texts or from the distinct colours of an
    image;
  - `batch.rs`: which files a batch takes, and its summary.
- `app/` is the command-line tool: arguments, file and image I/O, the
  floating-point distances of HSL, CIELAB and Oklab, threads and progress.
- `tests/` exercises the library on concrete values.
