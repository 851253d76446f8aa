[package]
name = "jj_lib"
version = "0.1.0"
edition = "2021"
publish = false

[dependencies]
bstr = "1"
clap = { version = "4", features = ["derive"] }
futures = "0.3"
hashbrown = "0.15"
itertools = "0.14"
pollster = "0.4"
smallvec = "1"
thiserror = "2"
tracing = "0.1"
