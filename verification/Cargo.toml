[package]
name = "silverscript-lang"
version = "0.1.0"
edition = "2021"
publish = false

[dependencies]
kaspa-txscript = "*"
blake2b_simd = "*"
semver = "1"

[dev-dependencies]
kaspa-consensus-core = "*"
