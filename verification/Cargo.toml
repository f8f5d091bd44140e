[package]
name = "rsml_lsp"
version = "0.3.0"
edition = "2021"
publish = false

[dependencies]
guarded = "=0.0.2"
indexmap = "=2.14.2"
levenshtein = "=1.0.5"
logos = "=0.15.1"
phf = { version = "=0.13.1", features = ["macros"] }
phf_macros = "=0.13.1"
rangemap = "=1.8.0"
rbx-rsml = "=1.0.2"
rbx_reflection = "=6.1.0"
rbx_reflection_database = "=2.0.2"
rbx_types = "=3.1.0"
ropey = "=1.6.1"
serde = { version = "=1.0.229", features = ["derive"] }
serde_json = "=1.0.154"
tokio = { version = "=1.54.1", features = ["full"] }
tower-lsp = "=0.20.0"
zed_extension_api = "=0.7.0"
