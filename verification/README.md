# thclaws_core

Organisation policy for the thClaws agent workspace, verified with Verus.

| Module | What it holds |
|---|---|
| `policy::verify` | what a policy signature covers, public keys and where they come from, verification |
| `policy::allowlist` | which URLs plugins, skills and MCP servers may come from |
| `policy_tool` | making keys, signing, verifying, inspecting and fingerprinting for the operator |
| `canonical`, `reading` | canonical JSON, and the proof that reading it gives back the document |
| `json` | JSON documents |
| `branding`, `prompts` | product name and contact, prompt templates and their overrides |
| `cancel` | cooperative cancellation |
| `crypto` | base64, Ed25519, SHA-256 and random numbers, from the crates that implement them |
| `text`, `paths` | text and path functions that the others share |

`crypto` and a few declarations beside it are trusted: each says in its comment
what it takes from the crate that it calls. Everything else is proved.

`app/` is the command-line tool `thclaws-policy-tool` and the code that connects
the library to files, the environment and the async runtime. `tests/` runs the
library with the real crates.
