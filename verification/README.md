# fibonacci-rust

Exact, huge Fibonacci numbers with full decimal output, verified with Verus.

`compute_fib(n)` returns `F(n)` for every index below 361 253 290 and an error
from there on; both are proved, down to the limbs of the result.

## How it works

1. **Fast doubling** goes from `(F(k), F(k+1))` to `(F(2k), F(2k+1))` per bit of
   `n`.
2. **Transforms** over three prime moduli do each large multiplication by exact
   convolution; one pair of forward transforms per modulus yields `a^2`, `b^2`
   and `a*b`.
3. **Decimal limbs** (base `10^9`) make printing zero-padded formatting.

## Layout

| Module | What it holds |
|--------|---------------|
| `fib` | the driver: `compute_fib` |
| `fibonacci`, `limit` | the sequence, its doubling identities, which indices are refused |
| `bigint` | big numbers: addition, subtraction, doubling, schoolbook product, Garner recombination |
| `product` | products and doubling steps by transforms |
| `ntt`, `tables` | modular arithmetic, root tables and their cache, the transforms |
| `transform`, `convolution` | what a transform computes; the convolution theorem |
| `crt` | numbers from residues |
| `decimal`, `digits` | decimal text, and what it means |
| `limbs`, `poly`, `modular`, `primes`, `field` | the mathematics underneath |
| `parallel` | what is taken from `rayon`, with the contracts it is trusted for |

`app/` is the command line: arguments, timing statistics, output files.

## Usage

```bash
fibonacci-rust 10000000          # time the computation
fibonacci-rust 10000000 -a 5     # average 5 runs with statistics
fibonacci-rust 1000000 -p        # print the number
fibonacci-rust 1000000 -s f.txt  # save it
```
