# hifi-decode

The exact parts of extracting audio from raw HiFi FM RF captures (VHS HiFi and
Video8/Hi8 AFM), as a Verus library with its proofs, and the machinery around
them.

| Directory | Contents |
|---|---|
| `src/` | The verified library |
| `tests/` | Its tests |
| `app/` | Native libraries, threads and logging around the library |

## The library

| Module | Contents |
|---|---|
| `rounding`, `binary64` | What rounding to binary64 is, and arithmetic on bit patterns proved against it |
| `bignat`, `decimal` | Decimal numbers of any length, read to the nearest binary64 |
| `frequency` | Frequencies such as `40`, `28.636mhz` or `8fsc`, in MHz |
| `block` | Block and overlap sizes, and the span of its decoded audio that a block contributes |
| `stream` | Blocks cut from an input of unknown length in bounded memory |
| `soxr`, `resample` | What libsoxr is handed: recipe, exact rate pair, buffer size |
| `pipeline`, `collector`, `delivery` | The order of stages and steps, and of blocks decoded in parallel; what the first failure does |
| `bias`, `progress` | Calibration and progress reports |
| `writer` | Container formats, interleaving, accounting of frames |

Functions that begin with `law_` state what holds across calls, for instance
that no RF sample is skipped, that blocks decoded in any order come out in
theirs, or that a bare number is a frequency in MHz.

Block sizes come from `ceil` and round-half-even of binary64 products and
quotients, and one sample more or less per block adds up to seconds over a
tape. The library therefore computes on bit patterns, with every operation
specified as one rounding of an exact ratio of integers.

## The machinery

`app/` needs libsoxr and libsndfile. Filtering, demodulation, dropout
compensation, head-switch noise removal and post-processing are supplied
through the traits in `app/stages.rs`.
