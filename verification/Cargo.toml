[package]
name = "tachys"
version = "0.1.0"
edition = "2021"
publish = false

[dependencies]
serde_json = "=1.0.151"
bytes = "=1.12.1"
oco_ref = "=0.2.1"
either_of = "=0.1.9"
futures = "=0.3.34"
any_spawner = { version = "=0.3.0", features = ["futures-executor"] }
or_poisoned = "=0.1.0"
parking_lot = "=0.12.5"
throw_error = "=0.3.1"
itertools = "=0.15.0"
