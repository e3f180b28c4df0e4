[package]
name = "feed_forward"
version = "0.1.0"
edition = "2021"
publish = false

[dependencies]
mnist = "*"
ndarray = "*"
reqwest = { version = "*", default-features = false, features = ["blocking", "rustls-tls"] }
zip = { version = "*", default-features = false, features = ["deflate"] }
