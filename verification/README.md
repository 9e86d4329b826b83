# logroller

Rolling log files, by size or by age, with the decisions verified in
[Verus](https://github.com/verus-lang/verus).

`src/` is the verified library. It opens no file and starts no thread: it is told
what was found and what came of an action, and says what to do next.

| module | what it holds |
| --- | --- |
| `rotation` | thresholds, periods and compression methods |
| `calendar` | instants with an offset, the next boundary of a period, stamps in file names |
| `meta` | the configuration of a log, and the names and times that follow from it |
| `builder` | the fluent interface by which a log roller is configured |
| `roller` | the state of a log roller, and what writes and rotations do to it |
| `rollover` | the steps of a rotation and of a compression |
| `create` | the steps by which a log file is opened |
| `retention` | which files belong to a log, and which of them are too old |
| `pattern` | the regular expressions for the files of a log |
| `numbering` | the numbers of rotated files |
| `codec` | gzip and xz streams |
| `thread_pool` | the size, the queue and the errors of the worker pool |
| `directory`, `lifecycle` | what all of this does to the files of a directory |
| `history` | what a log holds after any sequence of writes |
| `text` | decimal numbers, fields between dots, the order of names |
| `error` | paths and errors |

Functions whose names begin with `law_` state what holds of the library as a
whole: that names sort as their periods follow each other, that a rotation loses
no file, that the youngest files are the ones that are kept, and more.

What is trusted of `chrono`, `regex`, `flate2` and `xz2` stands in the contracts
of the functions marked `#[verifier::external_body]`, in `calendar`, `pattern` and
`codec`. The channels of `crossbeam-channel` are used in `thread_pool` with nothing
trusted of them.

`app/` puts files, threads and channels around the library, and offers a
`LogRoller` that implements `std::io::Write`. `tests/` runs the library.
