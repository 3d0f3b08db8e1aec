# aos_kernel

The deterministic core of an agent kernel, as a verified library.

- `src/` is the library. Every function states what it does over mathematical models, and what
  holds across functions stands beside them as public proof functions, in files of their own
  (`laws.rs`, `workspace/pages.rs`, `cell_index/whole.rs`) or at the end of a module.
- `tests/` runs the library on concrete values.
- `app/` is what stands around it: files, serde, and the loops that wait for the outside.

The modules, from the bottom up:

| Modules | What they hold |
| --- | --- |
| `text`, `text_order`, `bytes`, `names`, `sorted` | texts, bytes, maps by name, lists in order |
| `hash`, `cbor`, `cbor_map`, `cbor_text`, `variant` | digests and CBOR |
| `value`, `literal`, `types`, `codec`, `cbor_codec`, `schema_value` | values, literals and types, and the ways between them |
| `store`, `air`, `cell_index`, `journal`, `snapshot` | what is kept |
| `manifest_catalog`, `manifest`, `governance*`, `patch_doc`, `shadow` | manifests and how they change |
| `capability`, `cap_ledger`, `cap_enforcer`, `policy`, `secret` | who may do what |
| `effects`, `receipts`, `event`, `scheduler`, `plan` | what is asked of the outside, and what comes of it |
| `internal_effects`, `query`, `workspace` | what the kernel answers itself |
| `module_runtime`, `pure`, `reducer`, `workflow` | modules that are loaded and run |
| `llm_live` | conversations that check providers of language models |

What the library takes from other crates goes through a few functions marked
`#[verifier::external_body]`, each with a comment that says what it relies on.
