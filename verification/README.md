# mmapzstd

A streaming zstd decompressor over memory-mapped or hugepage-backed input,
written in Verus. The library under `src/` is verified; `app/` holds the
benchmark program around it, with the system calls that it takes.

| Module | What it is about |
|--------|------------------|
| `decoder` | `Decoder`: reading decompressed bytes from a mapping or a slice |
| `cursor` | the position in the input, truncation, and page retirement |
| `frame` | zstd frames, and the streams that are made of them |
| `stream` | the zstd streaming decoder, and what is relied on about it |
| `mapping` | memory mappings and the hints given about them |
| `hugepage` | sizing huge pages, and the steps of opening a file on them |
| `procfs` | numbers out of the text files under `/proc` |
| `text` | numbers as text |
| `bench` | what the benchmark measures and prints |

What a read delivers is stated over `frame::frame_content`, the content of a
well-formed zstd frame: at any time it is a prefix of the content of the frames, and
at the end it is all of it, unless a frame without content (an empty or a skippable
one) comes before the end. Input that ends inside a frame is reported as
`DecodeError::Truncated`. Which step of zstd a read takes, and what follows from its
report, is stated over `stream::history`.

A file must not be modified while it is mapped.
