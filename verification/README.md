# rust_pii_transformer

Finds personal data in Korean text and masks it. Forms, check digits and the words around a value
decide; no model is involved. Values are recognized in many notations, and everything found is led
back to its exact place in the source.

The library is written in Verus. Its behaviour is stated in contracts and proved.

| path | what it holds |
| --- | --- |
| `src/span/` | span maps: the alignment of a source with its normalized form |
| `src/normalize/` | the five passes of normalization |
| `src/detect/` | check digits, scanners, candidates, context, verdicts |
| `src/mask/` | policies, tokens, restoration |
| `src/synth/` | made-up samples with right check digits |
| `src/names.rs` | names of values in output, choices of the command line |
| `tests/` | tests of the library |
| `app/` | the command line `rpit`, scores in floating point, JSON, the Python module |

What holds of the library as a whole is stated in proof functions whose names begin with `law_`.
Among them: composing span maps is associative; the segments of a map tile both texts; masking
leaves everything outside of the findings untouched; and what was masked with tokens is restored
exactly.
