[package]
name = "asr_server"
version = "0.1.0"
edition = "2021"
publish = false

[dependencies]
actix-files = "=0.7.3"
actix-multipart = { version = "=0.8.5", default-features = false }
actix-web = { version = "=4.18.1", default-features = false, features = ["macros"] }
anyhow = "=1.0.104"
chrono = "=0.4.45"
fdk-aac = "=0.8.0"
futures = "=0.3.34"
hound = "=3.5.1"
minimp3 = "=0.6.1"
opencc-rs = "=0.5.2"
opus = "=0.4.0"
prettytable-rs = "=0.10.0"
rubato = "=0.15.0"
serde_json = "=1.0.154"
tracing = "=0.1.44"
webm-iterable = "=0.7.1"
whisper-rs = "=0.12.0"
