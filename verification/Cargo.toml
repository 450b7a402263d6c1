[package]
name = "walker_rl"
version = "0.1.0"
edition = "2021"
publish = false

[dependencies]
burn = { version = "=0.19.1", default-features = false, features = ["ndarray", "autodiff"] }
# The next five only switch on `std` in the parts of `burn`.
burn-core = { version = "=0.19.1", default-features = false, features = ["std"] }
burn-nn = { version = "=0.19.1", default-features = false, features = ["std"] }
burn-optim = { version = "=0.19.1", default-features = false, features = ["std"] }
burn-autodiff = { version = "=0.19.1", default-features = false, features = ["std"] }
burn-ndarray = { version = "=0.19.1", default-features = false, features = ["std"] }
chrono = "=0.4.45"
macroquad = "=0.4.16"
