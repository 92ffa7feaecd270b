[package]
name = "lean_buffer"
version = "0.1.0"
edition = "2021"
publish = false

[dependencies]
darling = "*"
flatbuffers = "*"
genco = "*"
glob = "*"
prettyplease = "*"
quote = "*"
syn = { version = "*", features = ["full"] }
