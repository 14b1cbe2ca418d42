# fast_deduplicator

Culling of Canon photo bursts. A memory card's photos are scanned by their
headers alone, grouped into bursts, ranked by sharpness, and the keepers are
copied through a recipe that is reviewed before anything is written. Originals
are never touched.

- `src/` is the library `fd_core`, verified with Verus: header parsing (CR3,
  CR2, JPEG), burst grouping, sharpness sums, focus peaking, pupil
  segmentation, the tracker's search, the job queue, and the rules of a culling
  session: marks and undo, ranking, pins, the session record, recipes and what
  is on screen.
- `tests/` runs the library.
- `app/` is the program around it: reading files, threads, the score cache,
  floating-point measurements, JSON, the command line and the window.

Each contract is stated over mathematical models: sequences of bytes and
characters, maps, and spec functions. Measured numbers are carried by their bit
patterns (`single::Real32`) and compared as IEEE 754 orders them. Laws that
relate several functions are public proof functions beside what they are about.

Calls into other crates stand behind small wrappers whose doc comments say what
is claimed of each: `zune-jpeg` decodes JPEGs whose layout has been tested first
(`stream`; built without overflow checks and debug assertions, as in a release), `xxhash-rust` hashes headers, and
`std` takes paths apart. Built with `--cfg turbo` the program decodes with
libjpeg-turbo instead, at the scale and in the window that the library plans.

```
fd scan DIR [--all] [--dump-previews OUT] [--dump-fullsize OUT]
fd cull DIR [--dry-run] [--top N] [--xmp] [--copy-to KEEPERS] [--source full]
fd apply RECIPE.json [--dry-run] [--verbose]
fd bench FILE
fd gui [DIR]
```
