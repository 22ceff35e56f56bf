# dominant-colors

Extracts the dominant colours of an image with three classic quantisation
algorithms — k-means (k-means++ start), median cut and octree — with every
algorithm proved correct against its specification in Verus.

## Layout

- `src/` — the verified library.
  - `color.rs`: pixels, colours, group means and the laws on partitions.
  - `algorithms/`: the three algorithms, ordering of palettes, and the common
    entry points `extract` and `extract_all`.
  - `lib.rs`: configuration, images and the `DominantColors` builder.
  - `wasm.rs`: argument checks, pixel decoding and JSON output of the
    WebAssembly binding.
  - `installer.rs`: the plan of the server set-up program, as data.
  - `error.rs`: errors and their messages.
- `app/` — the program and glue that stay outside verification: the set-up
  program that runs the plans, the WebAssembly exports, decoding images with
  the `image` crate, and the user-facing types with shares as fractions.
- `tests/` — tests of the library.

## What is proved

Every palette is the list of rounded mean colours of a split of the analysed
pixels into non-empty groups, each colour standing for its group's pixels, so
the shares add up to one and none is zero; palettes come ordered by share,
largest first. No pixels, or no colours requested, give an empty-image error
at the common entry point. K-means palettes come from a run of a k-means++
start (each later centre the roulette pick, on squared distances to the
nearest centre so far, of the drawn number) and assign/update steps with the
configured stopping rule; median cut palettes from the split rule (largest
bucket of more than one colour, cut at the median of its widest channel, ties
between channels going to red, then green); octree palettes are exactly those
of the octree run: every pixel inserted in order, then, while there are more
leaves than colours requested, the last node of the deepest list takes in its
leaf children with the fewest pixels (equal counts in slot order), and the
colours are read in a walk of the reduced tree. They hold exactly as many
colours as requested, or as many leaf cells as the pixels fill if that is
fewer, each group made of whole leaf cells. Median cut and octree are
deterministic: one palette per pixels and number of colours, whatever the
k-means settings. An image of a single colour gives that colour back,
alone, with every algorithm. The set-up plans stop at the first failing step
and succeed only when every step does.
