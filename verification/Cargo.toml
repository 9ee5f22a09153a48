[package]
name = "egui_pixels"
version = "0.1.0"
edition = "2021"
publish = false

[dependencies]
range-set-blaze = "=0.8.0"
egui = "=0.37.0"
futures = "=0.3.34"
serde = { version = "=1.0.229", features = ["derive"] }
thiserror = "=2.0.21"
image = "=0.25.10"
ndarray = "=0.17.2"
rolling-stats = "=0.8.0"
imbuf = "=0.3.4"
ort = { version = "2.0.0-rc.10", default-features = false }

[dev-dependencies]
