# Memory Plant

A compressed associative-memory engine. Facts `(key, value)` are bound by
element-wise multiplication with bipolar roles and summed into vectors of fixed
size; reading a key unbinds its role and looks for the nearest value. Around that
core stand the memories of users, an audit log, a document store with semantic
search, at-rest encryption and a tool server.

The library is verified with Verus. Floating-point numbers are held as binary32
bit patterns, and every operation on them goes through the trait
`kernel::Kernel`; contracts that involve one speak of the values that the kernel
gave back.

| Part | Modules |
|---|---|
| Vectors | `kernel`, `score`, `hlb`, `vsa`, `packing`, `entropy`, `bytes` |
| Facts | `vocab`, `resonator`, `adaptive`, `fact`, `personal` |
| Reading facts | `extractor`, `llm`, `anthropic`, `openai` |
| Documents | `chunking`, `compression`, `embedding`, `index`, `ranking`, `document` |
| Around them | `audit`, `service`, `persistence`, `crypto`, `json`, `text`, `mcp_server`, `ffi`, `bench` |

`app/` is the program: files, network, language bindings and the arithmetic
itself. `tests/` runs the library with the outside crates linked.
