[package]
name = "t51core"
version = "0.1.0"
edition = "2021"
publish = false

[dependencies]
byteorder = "1"
hashbrown = "*"
indexmap = "*"
slice-deque = "*"
serde = { version = "1", features = ["derive"] }
serde_json = "1"
bincode = "1"
anymap = "*"
itertools = "*"
