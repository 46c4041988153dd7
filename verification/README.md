# vosk_rust

Speech recognition with Kaldi nnet3 chain models, as Vosk ships them: a model directory goes in,
words come out. `src/` is a library whose functions carry contracts that Verus proves; `app/` is
the program around it, which reads files and does floating-point arithmetic.

## How a number is held

The library holds a single-precision number as its bit pattern, a `u32`. Order, negation and the
larger of two numbers are worked out on patterns. Whatever rounds comes through the trait
`single::Arith`, of which nothing is assumed: a contract says that a computed number is an answer
that the arithmetic gave for certain operands. `app/native.rs` implements it with the machine's
floats, `matrixmultiply` and `rustfft`.

## What a model directory holds

`am/final.mdl` (transition model and network), `graph/HCLG.fst` and `graph/words.txt` (or either of
them gzipped), `conf/model.conf` (beam, acoustic scale, limit on states) and `conf/mfcc.conf` (mel
bins and cepstra). How wide the speaker's vector is the network's own graph says; the vector itself
is zeros. Of a compact package `am/final.int4` only the table of pdf-ids can be read
(`TransitionModel::load_int4`), not the weights.

## Modules

| stage | modules |
|---|---|
| Kaldi's binary format | `kaldi_io`, `scan` |
| transition-ids to pdf-ids | `transition_model` |
| front end | `mfcc`, `cepstra`, `silence` |
| network file | `components`, `descriptor`, `graph`, `written` (texts read back), `appended` |
| network evaluation | `mat`, `evaluation`, `nnet3`, `determinism`, `unneeded` |
| transducer files | `openfst`, `fst`, `stored` |
| search | `search`, `decoder`, `frontier`, `best_path`, `untied`, `renaming`, `consistency` |
| words and settings | `words`, `conf`, `text` |
| all together | `recognizer`, `one_text` |
| matrix dumps | `dump` |

Public proof functions whose names start with `law_` state what holds across functions: that what
is written reads back, that a wide search finds the best path, that a search in which nothing is
tied has one answer, that nodes the output does not need do not matter, and so on. A law that two
results are equal has the premise that the arithmetic has one answer for each operation, as the
machine's has.

Where a file or a network does not hold together, a function returns an error and its contract says
on which inputs. Where the arithmetic hands back a matrix product or a Fourier transform of the
wrong size, the error says so, and the contract names the operands.
