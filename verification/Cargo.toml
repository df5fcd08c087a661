[package]
name = "column_width"
version = "0.1.0"
edition = "2021"
publish = false

[dependencies]
anyhow = "1"
proc-macro2 = "1"
quote = "1"
ucd-trie = "0.1"
ureq = { version = "2", default-features = false }
xflags = "0.3"
xshell = "0.2"

[dev-dependencies]
termwiz = "*"
