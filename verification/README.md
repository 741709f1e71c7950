# aube_lockfile

Lockfiles and manifests of a Node package manager, verified with Verus:
`pnpm-lock.yaml`, both formats of `yarn.lock`, `package.json` and the workspace
file.

- `src/graph.rs`, `src/source.rs`: the resolved graph, and the sources of
  packages outside the registry.
- `src/pnpm/`: reading, choosing, writing and laying out a `pnpm-lock.yaml`.
- `src/yarn/`: reading and writing classic and berry lockfiles.
- `src/manifest/`: the settings of a manifest and of a workspace file, and edits
  of both that keep what they do not change.
- `src/laws/`: what holds across several of these, such as that a lockfile reads
  back as the graph it was written from.
- `src/json.rs`, `src/yaml.rs`, `src/strmap.rs`, `src/text.rs`: values, ordered
  maps and text.
- `app/`: files, caches, error reports and serialization around the library.

Parsing and printing of JSON and YAML, the comment-preserving patches of a
workspace file and SHA-256 come from other crates. Their contracts are stated at
the wrappers that call them and are taken on trust; all else in `src/` is proved.
