[package]
name = "ai_pow_zk"
version = "0.1.0"
edition = "2021"
publish = false

[dependencies]
p3-air = "0.6"
p3-batch-stark = "0.6"
p3-challenger = "0.6"
p3-commit = "0.6"
p3-dft = "0.6"
p3-field = "0.6"
p3-fri = "0.6"
p3-goldilocks = "0.6"
p3-lookup = "0.6"
p3-matrix = "0.6"
p3-merkle-tree = "0.6"
p3-symmetric = "0.6"
p3-uni-stark = "0.6"
serde = { version = "1", features = ["derive"] }
thiserror = "2"
