[package]
name = "lua_flame"
version = "0.1.0"
edition = "2021"
publish = false

[dependencies]
anyhow = "1"
blazesym = "*"
clap = { version = "4", features = ["derive"] }
inferno = { version = "0.11", default-features = false }
libbpf-rs = "0.24"
libc = "0.2"
object = "0.36"
plain = "0.2"
