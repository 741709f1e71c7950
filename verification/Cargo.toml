[package]
name = "aube_lockfile"
version = "0.1.0"
edition = "2021"
publish = false

[dependencies]
miette = "=7.6.0"
serde = { version = "=1.0.229", features = ["derive"] }
serde_json = { version = "=1.0.154", features = ["preserve_order"] }
serde_yaml = "=0.9.34"
sha2 = "=0.10.9"
thiserror = "=2.0.21"
tracing = "0.1"
yaml_serde = "=0.10.7"
yamlpatch = "=1.24.1"
yamlpath = "=1.24.1"

# Nothing calls these two: yamlpatch and yamlpath are built on them, and each
# release of the family is meant to be used with its own.
subfeature = "=1.24.1"
tree-sitter-iter = "=1.24.1"
