[package]
name = "kafka_light"
version = "0.1.0"
edition = "2021"
publish = false

[dependencies]
anyhow = "1"
chrono = "0.4"
crossterm = "0.20"
humantime = "2"
number_prefix = "0.4"
rand = "0.8"
rand_seeder = "0.2"
rdkafka = { version = "0.26", default-features = false }
structopt = "0.3"
tui = { version = "0.16", default-features = false, features = ["crossterm"] }
