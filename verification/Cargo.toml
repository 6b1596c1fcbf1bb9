[package]
name = "agaric_blog"
version = "0.1.0"
edition = "2021"
publish = false

[dependencies]
actix-web = "4"
actix-files = "0.6"
ammonia = "3"
chrono = "0.4"
pulldown-cmark = { version = "0.9", default-features = false }
rand = "0.8"

[dev-dependencies]
regex = "1"
