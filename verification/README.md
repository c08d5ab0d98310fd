# icc

Minimal ICC display-profile support for output gamut correction: from the bytes
of a matrix/TRC display profile to the matrix and the curve coefficients that a
postprocess shader takes.

- `src/` is the library, verified with Verus.
  - `profile`: parsing of profiles, and the errors.
  - `trc`: tone response curves, normalized to one form.
  - `encode`: their inverses, as the shader takes them.
  - `correction`: the correction of a profile, and its uniforms.
  - `matrix`: exact 3 by 3 algebra on colorants.
  - `number`, `bytes`, `binary`: fixed-point numbers and quotients, big-endian
    reads, IEEE 754 bit patterns and rounding.
  - `search`: where profiles are looked for.
- `tests/` runs it.
- `app/` evaluates powers and logarithms in floating point, reads the
  environment and the files, and logs.

Numbers that come out of a profile are fixed-point, so all arithmetic on them is
exact, and rounded to binary32 once. A curve is a power law, whose values are
told as formulas: the caller evaluates them and hands binary64 patterns back.
