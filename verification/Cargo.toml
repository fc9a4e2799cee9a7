[package]
name = "sha512_circuit"
version = "0.1.0"
edition = "2021"
publish = false

[dependencies]
p3-air = "0.4"
p3-baby-bear = "0.4"
p3-challenger = "0.4"
p3-commit = "0.4"
p3-dft = "0.4"
p3-field = "0.4"
p3-fri = "0.4"
p3-keccak = "0.4"
p3-matrix = "0.4"
p3-merkle-tree = "0.4"
p3-symmetric = "0.4"
p3-uni-stark = "0.4"
serde = { version = "1", features = ["derive"] }
bincode = "1"

[dev-dependencies]
sha2 = "0.10"
