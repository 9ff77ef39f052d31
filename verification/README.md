# harletty

Decoders for DTS (core, extension substreams, lossless XLL, DTS:X metadata) and
for the object layer of E-AC-3, written in Verus: every function in `src/`
carries a contract that says what it returns, and Verus proves it.

- `src/bits.rs`, `src/bit_writer.rs`, `src/grammar.rs`: bit fields, and the
  vocabulary in which the parsers' contracts state a grammar.
- `src/framing.rs`: finding frames in a stream that arrives in pieces.
- `src/dca/`: DTS. `parser` and `extract` for core frames; `core_*` for the
  core's subband decode; `imdct` and `synth` for its filter banks; `exss` for
  extension substreams; `xll_*` and `xll` for the lossless layer; `alternate`,
  `xll_x`, `xmeta` and `spatial` for spatial extensions; `hd` and `pcm` for
  whole frames.
- `src/eac3/`: E-AC-3. `parser` and `extract` for syncframes; `allocation`,
  `masking` and `mantissa` for bit allocation and mantissas; `joc`, `oamd` and
  `metadata` for objects; `pcm` for what is decided per access unit.
- `app/`: what needs floating point or other crates: samples as fractions of
  full scale, linear gains, the E-AC-3 synthesis transform, the loop around what
  the library decides per E-AC-3 access unit, and errors with messages.
- `tests/`: examples with exact values.

The constant tables of the codecs (filter windows, code books, quantizer steps)
are arguments: a caller supplies them once, in `CoreTables`, `SynthTables` and
`XllTables`, each of which can say whether it is valid.
