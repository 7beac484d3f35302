# run_length

Run-length encodings with machine-checked contracts (Verus):

- `rle` — basic RLE: `(byte, count)` pairs, runs split at 255; a thresholded variant
- `packbits` — PackBits literal/repeat blocks of at most 128 bytes
- `binary` — alternating run lengths for 0/1 data, and row-by-row binary images
- `adaptive` — data profile, strategy choice, and encoding with the chosen strategy
- `stats` — worst-case size of the basic encoding and the byte distribution
- `runs` — the run-length helper shared by the encoders

Each encoder is specified by a spec function, and decoding its output is proved to give
the input back. `app/` holds the floating-point statistics (ratios, savings, entropy),
which stay outside the verified library.
