[package]
name = "fairlead"
version = "0.1.0"
edition = "2021"
publish = false

[dependencies]
regex = "1.12"
sha1_smol = "1"
serde = { version = "1", features = ["derive"] }
serde_json = "1"
toml = "0.8"
serde-saphyr = "*"
serde_path_to_error = "0.1"
schemars = "1"
globset = "0.4"
ignore = "0.4"
oxc_resolver = "11"
rayon = "1"
tree-sitter = "0.25"
tree-sitter-javascript = "0.23"
tree-sitter-typescript = "0.23"
