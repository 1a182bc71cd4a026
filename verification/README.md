# epic_drawing_backend

Contour extraction for drawing images with epicycles: an image is turned into an
edge map, the edge map into one ordered, closed contour, and the contour into the
Fourier coefficients of rotating circles that redraw it.

## Layout

- `src/` is the verified library (Verus). Every function there carries a contract
  that Verus proves, except the few small wrappers around calls into `image` and
  `imageproc` (marked `external_body`), whose contracts state what those crates
  do and are trusted:
  - `raster`: grayscale images, their abstract view as a map of pixels, pixel sets
    and the eight-neighbourhood;
  - `morphology`: closing with the 3x3 square and Zhang–Suen thinning;
  - `bridging`: stroke ends and the greedy joining of the closest pairs;
  - `components`: 8-connected components, breadth first, in row-major order;
  - `walk`: walking the largest component into a contour;
  - `tracing`: depth-first tracing of every large component into a stroke;
  - `line`, `linking`, `stable_sort`: digital lines, closing a contour, and
    chaining strokes into one path;
  - `pipeline`, `contour`: decoding and stretching an image to the working
    square, the post-edge-detection stages chained together, sample indices;
  - `config`, `fourier`, `observer`: validation of the image list, the integer
    bookkeeping of the transform, and the naming of debug files;
  - `picture`: RGB pictures of the component selection and of the strokes.
- `tests/` exercises the library on concrete images and strokes.
- `app/` is the command-line runner: blurring and edge detection
  (floating point), the Fourier transform, the TOML configuration, saving the
  debug pictures, and the WebAssembly entry points.
