[package]
name = "fastreach-core"
version = "0.1.0"
edition = "2021"
publish = false

[dependencies]
byteorder = "1"
chrono = { version = "0.4", default-features = false, features = ["std"] }
fnv = "1"
rudac = "*"
rstar = "0.12"
smallvec = "1"
geo = "0.30"
geo-clipper = "*"
geojson = "0.24"
memmap2 = "0.9"
num-traits = "0.2"
lazy_static = "1"
serde = { version = "1", features = ["derive"] }
serde_derive = "1"
thiserror = "1"
tokio = { version = "1", features = ["macros", "rt-multi-thread", "signal", "sync"] }
warp = "0.3"
