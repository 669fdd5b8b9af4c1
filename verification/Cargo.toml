[package]
name = "sort_enforcement"
version = "0.1.0"
edition = "2021"
publish = false

[dependencies]
datafusion-common = "=33.0.0"
datafusion-physical-expr = "=33.0.0"
datafusion-physical-plan = "=33.0.0"
itertools = "=0.12.1"
# arrow 48, on which the engine rests, does not compile with a later chrono
chrono = "=0.4.39"

[dev-dependencies]
datafusion-expr = "=33.0.0"
