[package]
name = "bevy_nds"
version = "0.1.0"
edition = "2021"
publish = false

[dependencies]
bevy_app = { version = "0.16", default-features = false, features = ["std"] }
bevy_ecs = { version = "0.16", default-features = false, features = ["std"] }
bevy_input = { version = "0.16", default-features = false, features = ["std"] }
bevy_math = { version = "0.16", default-features = false, features = ["std"] }
bevy_time = { version = "0.16", default-features = false, features = ["std"] }
libm = "0.2"
ron = "0.8"
serde = { version = "1", features = ["derive"] }
