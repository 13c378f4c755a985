[package]
name = "ks-cli"
version = "0.1.0"
edition = "2021"
publish = false

[dependencies]
base64 = "0.22"
serde_json = "1"
clap = { version = "4", features = ["derive"] }
cliclack = "0.3"
owo-colors = { version = "4", features = ["supports-colors"] }
arboard = { version = "3", default-features = false }
secrecy = "0.10"
zeroize = "1"
libc = "0.2"
windows-sys = { version = "*", features = ["Win32_System_Diagnostics_Debug"] }
