# burpex

Reads a Burp Suite project file (`.burp`) and turns it into plain values, and
from there into JSON: HTTP messages and transactions, scope, scan issues,
hosts, and the layout of the file itself. The library is written in Verus: what
each function returns is stated in its contract and proved.

## Layout

- `src/` is the library. It works on bytes in memory and does no I/O.
  - `frame`, `header`, `container`: the container of framed records, its fixed
    header and the map of the file.
  - `classify`, `text`, `bytes`, `strs`, `chars`, `num`: what a payload is, and
    reading texts and numbers from it.
  - `http`, `body`: HTTP messages, with bodies de-chunked and decompressed.
  - `transaction`, `extract`, `project`: grouping messages into transactions,
    the whole-file extraction and the project summary.
  - `counts`, `codes`, `order`: sorted counts and sorted sets of texts.
  - `preview`: the lines and file names that the program writes.
  - `laws`: what holds of a whole extraction.
- `app/` is the program: arguments, files, JSON.
- `tests/` runs the library on bytes built in memory.

## What is taken on trust

The decompressors of `flate2` and `brotli`, the base64 encoder of `base64`, the
string writer of `serde_json`, and a few functions of the standard library. Each
stands behind one item whose comment says what is claimed of it.

## Commands

```
burpex info <file>           header + stats + project summary
burpex layout <file>         file layout (header, runs, trailers, tail)
burpex walk <file>           one JSON line per frame (raw)
burpex http <file>           one JSON line per HTTP message
burpex transactions <file>   one JSON line per request+response+sitemap path
burpex extract <file> -o     full extraction to a single JSON document
burpex blobs <file> -o dir/  dump every text/JSON/state-blob payload
```
