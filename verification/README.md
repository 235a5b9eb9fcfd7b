# provisioner

The verified core of a WiFi provisioning portal: a device opens an access
point, serves a configuration page, reads the submitted form and stores the
configuration.

`src/` is written in Verus; every function there carries a contract that
Verus proves:

- `form` — `application/x-www-form-urlencoded` encoding and decoding, the
  pair iterator `FormPairs`, and `encode_pair_into`; the laws that decoding
  undoes encoding and that pairs written with `encode_pair_into` are read
  back by `FormPairs`.
- `http` — request parsing (method, path, `Content-Length`, body), response
  and redirect writing, captive-portal probe detection.
- `number` — decimal text of integers and what `str::parse` accepts for
  the integer types.
- `config` — reading configuration fields (texts, flags, integers) from a
  form body and writing them for storage, in caller-provided buffers with no
  allocation, with the law that stored fields read back unchanged whatever
  their text.
- `html` — field labels, HTML escaping and the configuration page with its
  documented `provision-*` ids and classes; the page is built once, when the
  derive expands.
- `storage` — the `Storage` trait and the in-memory `MockStorage`.

`app/` holds the `#[derive(Provision)]` code generator, which reads a struct
with `syn` and emits code that calls the verified functions.  `tests/` runs
the library on concrete inputs.
