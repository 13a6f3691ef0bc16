[package]
name = "escapepod"
version = "0.1.0"
edition = "2021"
publish = false

[dependencies]
nix = { version = "*", features = ["feature", "fs", "mman", "process", "ptrace", "signal", "uio"] }
libc = "*"
syscalls = "*"
serde = { version = "*", features = ["derive"] }
serde_json = "*"
clap = { version = "*", features = ["derive"] }
procfs = "*"
