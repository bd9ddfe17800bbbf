# rowids

Row ID sequences: compact encodings of which rows a fragment holds, and their storage format.
The library is verified with Verus.

A sequence is a list of segments. Each segment is one of

- a range of row IDs,
- a range with holes, listed in an encoded array,
- a range with runs of holes,
- a range with a bitmap of the row IDs that are present,
- a sorted array, or
- an array in any order.

## Layout

| Module | Contents |
| --- | --- |
| `runs` | `HoleRuns`: the missing offsets of a range as maximal runs; counting, searching, listing |
| `bitmap`, `encoded_array`, `packed` | the other encodings |
| `segment` | `U64Segment` and `RowIdSequence` |
| `serde` | conversion to and from messages, with all checks; `write_row_ids`, `read_row_ids` |
| `pb` | the messages; writing them (`layout`, `encode`) and reading them field by field (`merge`, `decode`) |
| `wire` | keys, varints and payloads, and the faults found in them |
| `buffer` | shared byte buffers |
| `error` | each fault that stored row IDs can have, and its text |

Each data type has a mathematical model as its view, and contracts are stated over the models.
Proof functions whose names start with `law_` state what holds across functions. The most
important one is `serde::model::law_read_what_was_written`: what is written is read back.

## What is trusted

`buffer` and `wire` hold the calls into the `bytes` and `prost` crates. Their contracts are
assumed, and the doc comment of each says what is assumed of which function. All else is proved.

`app` is ordinary Rust on top of the library.
