[package]
name = "sound_pad"
version = "0.1.0"
edition = "2021"
publish = false

[dependencies]
uuid = { version = "1", features = ["v4"] }
serde = { version = "1", features = ["derive"] }
serde_json = "1"
thiserror = "2"
hound = "3"
ebur128 = "0.1"
rubato = "0.16"
symphonia = { version = "0.5", features = ["mp3"] }
zip = { version = "7", default-features = false }
