# kangputus

A search for a discrete logarithm on secp256k1 by kangaroo walks with distinguished points. The
library in `src/` is verified with Verus; `app/` holds the command line, the threads and the files.

| Module | What it holds |
| --- | --- |
| `bytes`, `limbs`, `modular` | numbers as bytes and as 64-bit limbs, facts about remainders |
| `field`, `scalar` | the coordinate field and the scalar field, batch inversion |
| `curve` | points, multiples of the generator by fixed windows |
| `draw`, `jumps` | random scalars, the table of jumps |
| `walk` | walks: start, hop, distinguished points, a worker's round |
| `record`, `dp_map`, `collect` | the log, the table of points, and what a meeting tells |
| `checkpoint`, `disk`, `schedule` | checkpoints, the writer of the log, what is due when |
| `target`, `report`, `encoding` | the target, the check of a candidate, addresses and texts |
| `compact`, `text` | numbers and texts in short |

What is believed of outside crates stands on the functions marked `#[verifier::external_body]`;
each says which outside function it calls and what it claims of it.
