[package]
name = "join_lasso"
version = "0.1.0"
edition = "2021"
publish = false

[dependencies]
num-traits = "=0.2.19"
polars-arrow = "=0.55.2"
polars-core = { version = "=0.55.2", default-features = false, features = [
    "dtype-i8",
    "dtype-i16",
    "dtype-i128",
    "dtype-u8",
    "dtype-u16",
    "dtype-u128",
    "dtype-f16",
    "dtype-date",
    "dtype-time",
    "dtype-datetime",
    "dtype-duration",
] }
polars-error = "=0.55.2"
polars-utils = "=0.55.2"
