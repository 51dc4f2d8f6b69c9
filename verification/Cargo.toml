[package]
name = "riscv_benchmarks"
version = "0.1.0"
edition = "2021"
publish = false

[dependencies]
aes = "0.8"
sha2 = { version = "0.10", default-features = false }
md-5 = { version = "0.10", default-features = false }
miniz_oxide = { version = "0.8", default-features = false, features = ["with-alloc"] }
radsort = "0.1"
regex-automata = "0.4"
serde = { version = "1", default-features = false, features = ["derive"] }
serde-json-core = "0.6"
heapless = { version = "0.8", features = ["serde"] }
