# hologram_ai

The verified core of a content-addressed model runtime. Every weight of a compiled
model is addressed by its κ-label, the BLAKE3 digest of its bytes; the library holds
the rules by which labels are minted, checked, resolved and bound, and the decisions
of the sessions that run on them.

- `src/` is the library. Every item of it is proved with Verus against the contracts
  that stand beside the code; the laws are the public proof functions named `law_*`.
- `tests/` runs the library with the real outside crates.
- `app/` is ordinary Rust around it: files, the browser, floating point, and the
  traits by which an embedder plugs in its execution substrate.

| Modules | What they hold |
| --- | --- |
| `kappa`, `kappa_map` | labels, digests, and the map from constants to labels |
| `store`, `materialize`, `plan`, `paging`, `provider` | resolving and verifying content, filling or paging the constants of an archive |
| `archive`, `weights` | re-emitting an archive, and the canonical order of its weights |
| `prism` | the contract manifest of a graph |
| `runner`, `forward` | ports, inputs and outputs, and caches that stay resident between walks |
| `manifest`, `quant`, `session`, `residency`, `chat`, `stream` | streamed manifests, quantization maps, session plans, residency budgets, chat turns, streamed text |
| `tokenizer`, `tokenizer_config`, `vocab`, `json` | tokenizers and their configuration |
| `text`, `bytes`, `textmap` | what the others are built from |
