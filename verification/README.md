# raytracer

The verified core of a small ray tracer, written in Verus.

- `src/` is the library, checked by Verus:
  - `canvas`: a grid of pixels of any type, stored row by row, with its
    PPM and PNG encodings;
  - `writer`: a writer that hands bytes on line by line and breaks lines
    longer than a column limit at spaces, with the specification of what
    one write and a run of writes do;
  - `ppm`: the pieces of a PPM file and the proofs that every line of the
    file is at most seventy bytes long, that it starts with its header,
    ends with a newline, and holds its pieces with only spaces turned into
    newlines;
  - `png_image`: the PNG encoder of the `png` crate, behind one trusted
    function;
  - `lights`, `ray`, `plane`, `world`: the plain data of light sources,
    rays, the plane `y = 0` and scenes, over position and color types of
    the caller's choice.
- `app/` holds what works on floating-point numbers (colors, tuples,
  matrices, shading, light sources that draw random photons) and the
  writing of images to streams.
- `tests/` exercises the library.
