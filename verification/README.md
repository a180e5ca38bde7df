# music_notation

The score model and the editing rules of a small music notation editor,
verified with Verus, and the Windows program that draws the score and takes
keyboard and mouse input.

## Layout

- `src/` — the verified library.
  - `address.rs`: address tables that let objects and slices keep their
    addresses while their positions change.
  - `notation.rs`: pitches, accidentals, clefs, key and time signatures, and
    the glyphs and staff steps they are drawn with.
  - `rhythm.rs`: lengths in whole notes as exact fractions (num-rational on
    num-bigint), the rests that fill a length, and the binary digits of a
    length.
  - `staff.rs`, `system.rs`: staves of objects, slices that align objects
    across staves, and their invariants.
  - `accidentals.rs`: which accidentals are drawn, reset after every change.
  - `content.rs`: the musical content of a staff, with the accidentals that
    are only drawn left out.
  - `durations.rs`, `removal.rs`, `headers.rs`, `signatures.rs`,
    `staff_creation.rs`: entering and removing notes, rests, clefs, key and
    time signatures, and staves.
  - `editor.rs`: the cursor and selection, and what each key does to them.
  - `spacing.rs`: horizontal layout — slice distances, object positions and
    the ghost cursor under the mouse — from widths measured by the caller.
  - `laws.rs`: properties that relate several of the functions above.
- `tests/` — tests of the library on concrete scores.
- `app/` — the Windows program: fonts, drawing and input with winapi, and
  the floating-point layout (zoom, font metrics, rhythmic distances).
