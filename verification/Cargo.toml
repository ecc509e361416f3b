[package]
name = "orca_tick_arrays"
version = "0.1.0"
edition = "2021"
publish = false

[dependencies]
solana-program = { version = "2", default-features = false }
bytemuck = "1"
