[package]
name = "ddup"
version = "0.1.0"
edition = "2021"
publish = false

[dependencies]
crc = "1.8.1"
clap = "2.33"
glob = "0.3"
indicatif = "0.15"
rayon = "1"
winapi = { version = "0.3", features = ["fileapi", "handleapi", "ioapiset", "winioctl", "winnt", "minwindef", "ntdef", "winerror"] }
