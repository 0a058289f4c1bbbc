# winnow (complete-input token parsers)

Parsers that recognise prefixes of a token stream: `tag`, `tag_no_case`,
`is_a`, `is_not`, `take`, `take_while`, `take_while1`, `take_while_m_n`,
`take_till`, `take_till1`, `take_until`, `take_until1`, `escaped` and
`escaped_transform`, with `any`, `one_of_internal` and `none_of_internal`.

The input is a slice of tokens, `&[u8]` for bytes or `&[char]` for text; a
string is parsed as its characters. Each parser takes its input last and
returns `IResult`: the remaining input and the output, or an `ErrMode`.
Predicates and sub-parsers are ordinary closures.

Layout:

- `src/error.rs`: `ErrorKind`, `Error`, `ErrMode`, `Needed`.
- `src/input.rs`: the `AsChar` and `ExtendInto` traits for tokens and
  outputs, and the scans and pattern searches the parsers share.
- `src/bytes/complete.rs`: the parsers, their contracts, and the per-step
  functions of the two escaped scans.
- `src/bytes/laws.rs`: properties that hold across parsers.

Every function is proved with Verus against its contract, except one trusted
wrapper: `to_lowercase` in `src/input.rs`, which calls `char::to_lowercase` and
whose contract names its result without proof. A closure argument
is specified by what it may answer (`call_ensures`), so results are pinned down
relative to what the closures answered.
