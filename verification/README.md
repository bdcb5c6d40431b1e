# spack

An archiver for media files that gives every byte back. GIF and ProRes QuickTime files are taken
apart into what they show and what is left, both are coded by models made for them, and a record is
kept only where it is smaller than the file.

`src/` is a library written in Verus: every function states in `requires` and `ensures` what it needs
and what it does, and Verus proves it. `app/` is the program around it: files, the command line, the
tool protocol, and the floating-point arithmetic that guesses how a movie was made.

## The library

| What | Modules |
| --- | --- |
| Archives | `container`, `manifest`, `volumes`, `paths`, `roots`, `scan`, `companions`, `packing`, `records`, `restoring` |
| GIF files | `gif_exact`, `gif_model`, `gif_predict` and the `gif_*` modules below them, `lzw`, `lzw_law`, `ppmd` |
| ProRes planes | `codeword`, `plane`, `loose`, `alpha`, `prores_frame`, `prores_bits`, `scanning`, `splice`, `transform` |
| Movies as coefficients | `mov_exact`, `mov_cross`, `mov_model`, `mov_motion`, `mov_motion_entropy`, and the `exact_*`, `model_*` and `motion_*` modules |
| Movies as pictures | `mov_source` and the `source_*` modules |
| The program's surface | `cli`, `agent`, `mcp`, `json`, `locale`, `monitor` |
| Shared | `compression`, `streams`, `wire`, `text`, `order`, `index` |

Public proof functions whose names begin with `law_` state what holds of several functions together.
The widest is `archive_law::law_archives_give_files_back`: files come out of an archive as they went
in. A movie stored as pictures and errors does so with painters that are steady, that is, give one answer to
one question. Below it stands one law for every form of record, such as `gif_exact::law_decode_undoes_encode`,
`model_law::law_both_sides_learn_alike`, `mov_motion::law_decode_undoes_encode` and
`film_law::law_decode_undoes_encode`. The parts of an archive join to it by
`volumes::law_parts_give_the_archive_back`.

## What is believed

The compressors (zstd, PPMd), the checksum (BLAKE3), the reading of JSON and the quoting of its strings
(serde_json) and the lower case of letters come from other crates or from std. Each such call stands in a small function whose doc comment
says what is claimed of it. What the compressors give, success or failure, is named, so that a result above
them is pinned down by its input. A painter, a fit and a watcher are traits: each says by relations of its own
what it answers, and the contracts tie every answer to them.
