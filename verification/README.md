# hdfs-s3-gateway

A read-only S3 view of an HDFS directory tree. One bucket is exposed; its keys are the paths
below a configured HDFS root.

## Layout

- `src/` is the library: every decision of the gateway, verified with Verus. It does no I/O.
  - `path`: keys and HDFS paths, and the directory that a listing starts at.
  - `text`, `sort`, `number`: UTF-8 byte order, stable sorting, numerals.
  - `listing`, `token`, `list_objects`: Contents and CommonPrefixes, pages, continuation tokens,
    and the `ListObjectsV2` request and response.
  - `sorted_listing`, `namespace`, `pulls`: the lazy merge behind flat listings, and the proof
    that it lists exactly what is there and asks for nothing without need.
  - `walk`: what a client is served that walks through a listing from token to token.
  - `object`, `metadata`, `range`, `stream`: objects, preconditions, byte ranges, bodies.
  - `error`, `write_policy`, `auth`, `backpressure`, `request`, `server`: errors and policies.
  - `config`, `lifecycle`, `log_lines`: configuration, background runs, log output.
- `tests/` runs the library with its real dependencies.
- `app/` is the program: HDFS client, HTTP server, command line, Python bindings.

## What is proved

Each public function has a contract that fixes its result. The functions named `law_...` state
what holds of several functions together: keys never leave the root, pages tile a listing
without gaps or repetitions, a walk from token to token serves every key once and ends, a
response body is never silently short.

A few functions call other crates (`base64`, `mime_guess`, `s3s`) or parts of `std` that have no
specification. Their contracts are taken on trust; the doc comment of each says what is claimed.
