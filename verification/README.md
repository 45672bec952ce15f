# foldquery

The core of FoldQuery, a desktop app that builds 3D models with CadQuery and
unfolds them into papercraft nets, written in Verus with its behaviour stated
as contracts and proved.

- `src/` — the verified library:
  - `unfold/` — mesh validation, edge adjacency (closed-manifold check),
    union-find, the island bookkeeping of the greedy unfold, and the final
    classification of net edges. The floating-point geometry stays outside.
  - `agent.rs` — history trimming to the context budget, the change report of
    an edit, and the texts that report tool results to the model.
  - `llm.rs` — assembling a reply from streamed or whole responses.
  - `json.rs` — reading values out of JSON text by JSON Pointer.
  - `provider.rs` — provider URL normalization.
  - `project.rs` — project metadata, listing order, the script a project
    offers.
  - `python.rs` — reading Python versions, the setup check's decisions, and
    provisioning messages.
  - `sidecar.rs` — request numbering, response matching and restart policy of
    the Python sidecar.
  - `order.rs`, `text.rs` — a stable sort by key and exact text helpers.
- `tests/` — tests of the library on concrete values.
- `app/` — the Tauri shell: commands, file and process I/O, keychain and
  network clients, and the floating-point geometry.
