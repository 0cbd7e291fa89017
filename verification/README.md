# nymx

Anonymous file exchange over the Nym mixnet, with a verified core.

`src/` is the library, verified with Verus. It holds no input or output: its state machines say what
is to be sent, written or read next, and are told what came of it.

| module | what it is about |
|---|---|
| `wire`, `protocol`, `protocol_laws` | integers and messages as bytes, and that nothing is lost in them |
| `digest` | RIPEMD-160 digests of data that comes piece by piece |
| `receive`, `receive_laws` | chunks that arrive in any order become a file |
| `receiver` | who may send, and which message belongs to which reception |
| `send`, `send_session` | what a sender puts on the wire, and the course of a transfer |
| `parts` | files that were split into parts |
| `get`, `ssh` | fetching files from a server, and the way through a SOCKS5 proxy |
| `config`, `alias`, `gui`, `icon` | settings, contacts, the window and its icon |
| `text`, `string_map`, `rounding`, `utils` | text, maps, rounding and sizes |

`tests/` runs the library. `app/` is the program around it: the command line, the window, files, the
mixnet and SSH.
