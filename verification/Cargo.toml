[package]
name = "bedrockformation"
version = "0.1.0"
edition = "2021"
publish = false

[dependencies]
bytemuck = { version = "=1.25.2", features = ["derive"] }
iced = { version = "0.12", default-features = false, features = ["tokio"] }
rayon = "=1.12.0"
smallvec = "=1.16.4"
tokio = { version = "=1.54.1", features = ["rt"] }
