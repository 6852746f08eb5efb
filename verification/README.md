# GIF to ASCII

Converts a GIF into an ASCII-art GIF. `ffmpeg` takes the GIF apart, ImageMagick resizes the frames
and writes their pixels out as text, and ImageMagick puts the pictures together again. What happens
in between is decided and computed by a library whose functions are proved with
[Verus](https://github.com/verus-lang/verus) to do what their contracts say.

```
gif-to-ascii /path/to/gif
```

writes `ascii.gif` to the working directory. There are three modes:

- `plain`, the default: black text on white, with a given number of columns
- `columns`: coloured text in cells of 7 by 14 pixels, with a given number of columns
- `fitted`: coloured text on the grid of characters that covers the GIF best

```
gif-to-ascii /path/to/gif --mode fitted --output art.gif
```

## Layout

- `src/` is the library.
  - `coarse`, `fine`, `brightness`: characters for colours
  - `channel`, `decimal`: colour channels as text, such as `255`, `254.7` and `50.2%`
  - `dump`: pixel dumps, and the ASCII art in them
  - `typeface`, `grid`, `render`: fonts, grids of characters, pictures of them
  - `probe`, `frames`, `names`, `commands`: reports, delays and sizes, files, arguments
  - `run`: a conversion as a machine that names the next action and takes in what came of it
  - `binary64`, `binary32`, `text`: floating-point arithmetic on integers, and text
  - `reading`, `course`: laws on what is read back and on whole conversions
- `app/` runs the programs and moves the files.
- `tests/` runs the library on concrete values.

## What is not proved

Brightness, percentages and aspect ratios are computed as in double precision, by integer
arithmetic that is proved to round correctly. The library relies on a few functions from outside
without proof; each stands behind an item marked `Trusted` in its doc comment:

- `ab_glyph`: whether data is a font, the height of a font, the advance, the box and the
  outline of a character, the height of a line
- `imageproc` (with `image`): drawing a character on a picture
- the standard library: `str::from_utf8`, `String::from_utf8_lossy` and `String::push`
