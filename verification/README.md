# cursortab

The logic of a Neovim plugin that shows AI tab completions, as a verified
library:

- `varint`, `wire`, `encode`, `decode`: protobuf varints, the request
  messages the plugin sends and the two streamed responses it reads.
- `frame`: the five-byte framing of streamed messages, and what is left
  over between chunks.
- `stream`: what is done with each chunk of a streamed response.
- `buffer`, `text`, `session`: the state kept of the edited buffer and the
  decisions taken on an edit and on the accept key.
- `checksum`, `auth`, `certs`: the checksum header, where the sign-in database
  lies, and where the certificate bundles are looked for.
- `bytes_buf`: the byte buffer of the `bytes` crate that the encoders fill.

`app/` holds the program around it: the Neovim RPC loop, the HTTP client,
the database read and the clock.
