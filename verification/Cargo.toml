[package]
name = "light-program-profiler"
version = "0.1.0"
edition = "2021"
publish = false

[dependencies]
mollusk-svm = "0.3"
solana-program-runtime = "2.3"
