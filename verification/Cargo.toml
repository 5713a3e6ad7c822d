[package]
name = "chuks_numpy"
version = "0.1.0"
edition = "2021"
publish = false

[dependencies]
ndarray = "0.16"
nalgebra = "0.33"
num-complex = "0.4"
rustfft = "6"
rand = "0.8"
rand_distr = "0.4"
zip = { version = "0.6", default-features = false, features = ["deflate"] }
arrow = { version = "53", default-features = false, features = ["ffi"] }
