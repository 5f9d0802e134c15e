[package]
name = "dupehound"
version = "0.1.0"
edition = "2021"
publish = false

[dependencies]
anyhow = "1"
ignore = "*"
rustc-hash = "*"
serde = { version = "1", features = ["derive"] }
streaming-iterator = "*"
tree-sitter = "*"
tree-sitter-c = "*"
tree-sitter-c-sharp = "*"
tree-sitter-clojure-orchard = "*"
tree-sitter-commonlisp = "*"
tree-sitter-cpp = "*"
tree-sitter-elisp = "*"
tree-sitter-go = "*"
tree-sitter-java = "*"
tree-sitter-javascript = "*"
tree-sitter-kotlin-ng = "*"
tree-sitter-php = "*"
tree-sitter-python = "*"
tree-sitter-ruby = "*"
tree-sitter-rust = "*"
tree-sitter-scala = "*"
tree-sitter-swift = "*"
tree-sitter-typescript = "*"
