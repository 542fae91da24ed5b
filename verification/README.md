# cidr_utils

Parse, enumerate, and test IPv4 and IPv6 CIDR blocks and address ranges,
with every operation specified and proved in Verus.

## Layout

- `src/` — the verified library.
  - `addr.rs`: address values of both families.
  - `block.rs`: the mathematical model of a block (an aligned run of
    `2^(width - prefix)` addresses) and the raw algorithms on it:
    exclusion, range decomposition, aggregation.
  - `cidr.rs`, `range.rs`, `set.rs`: the public block, range and target
    types, their iterators, and their contracts over the model.
  - `parse.rs`, `read.rs`: the textual grammar over characters and the
    readers (`from_text`, `FromStr`).
  - `show.rs`: writing values as text (`to_string`).
  - `vlsm.rs`, `capped.rs`: VLSM allocation and capped aggregation.
  - `report.rs`: `--info` lines, target summaries, target-list lines.
  - `laws.rs`, `roundtrip.rs`, `roundtrip6.rs`: properties relating several
    operations, among them that written text reads back as the same value.
  - `error.rs`, `text.rs`, `convert.rs`: errors, strings, conversions.
- `tests/` — executable tests of the library.
- `app/` — the `cidr-utils` command-line program built on the library.
