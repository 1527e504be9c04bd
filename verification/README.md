# ternary-search

A server that finds, among some thousand embedding vectors, those that a query vector is about.
It scans all vectors, ranks them by cosine similarity, boosts those that carry the concept nearest
to the query, and names similar vectors from other concepts besides.

`src/` is the library, verified with Verus; `app/` is the HTTP server around it.

| module | what it holds |
|---|---|
| `scalar` | numbers as bit patterns, and the order IEEE 754 gives them |
| `numerics` | the arithmetic a caller brings, and sums, dot products, norms, cosines and means over it |
| `parallel` | work over a range of rows, shared out among threads with `rayon` |
| `ranking` | the best rows first; the first or last of the best |
| `index` | which rows carry which concept |
| `text` | splitting, trimming and spelling out text |
| `vectors` | the store: rows end to end, and how it is made of records and read from a file |
| `search` | classification, search, cross-pollination, hits |
| `concepts` | the pairs of rows that bridge two concepts |
| `service` | what the server answers |

Verus does not reason about floating-point arithmetic, so a number is carried by its bits, and an
operation on numbers is a method of the trait `Numerics`. Contracts say which operation is applied
to what and in which order; the laws named `.._is_determined` show that this leaves one result
wherever each operation has one. Comparing numbers needs no arithmetic and is done on the bits.

What is trusted: `rayon`'s parallel `map` and `filter_map` over a range (`parallel`), and
`String::push` (`text`).
