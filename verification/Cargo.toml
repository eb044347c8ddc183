[package]
name = "calendars_core"
version = "0.1.0"
edition = "2021"
publish = false

[dependencies]
rand = "0.8"
rand_chacha = "0.3"
hopcroft-karp = "*"
slotmap = "1"
itertools = "0.12"
serde = { version = "1", features = ["derive"] }
serde_json = "1"
chrono = "0.4"
chrono-tz = "0.8"
icalendar = "0.16"
rusqlite = { version = "0.31", features = ["bundled"] }
csscolorparser = "0.6"
anyhow = "1"
thiserror = "1"
indicatif = "0.17"
tracing = "0.1"
tracing-subscriber = "0.3"
serde-pickle = "1"
strum = { version = "0.26", features = ["derive"] }
enumflags2 = { version = "0.7", features = ["serde"] }
