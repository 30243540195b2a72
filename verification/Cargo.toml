[package]
name = "rua"
version = "0.1.0"
edition = "2021"
publish = false

[dependencies]
clap = { version = "4", features = ["derive"] }
libffi = "*"
libloading = "0.8"
lsp-server = "0.7"
lsp-types = "0.95"
miette = { version = "7", features = ["fancy"] }
mimalloc = "0.1"
prettyplease = "0.2"
proc-macro2 = "1"
quote = "1"
serde = { version = "1", features = ["derive"] }
serde_json = "1"
syn = { version = "2", features = ["full"] }
thiserror = "2"
