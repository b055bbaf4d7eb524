[package]
name = "lrgex_compress"
version = "1.7.2"
edition = "2021"
publish = false

[dependencies]
zstd = "=0.13.4"
ed25519-dalek = "=2.2.0"
hex = "=0.4.3"
sha2 = "=0.10.9"
tar = "=0.4.46"
zip = "=2.6.1"
unrar = "=0.5.8"
rayon = "=1.12.0"
serde = { version = "=1.0.229", features = ["derive"] }
serde_json = "=1.0.154"
ureq = "=2.12.1"
rand = "=0.8.8"
rfd = "=0.15.4"
backtrace = "=0.3.77"
windows-sys = { version = "=0.59.0", features = ["Win32_Foundation", "Win32_Storage_FileSystem", "Win32_System_Threading", "Win32_UI_Shell", "Win32_UI_WindowsAndMessaging", "Win32_Security", "Win32_System_Diagnostics_Debug", "Win32_System_Kernel", "Win32_System_LibraryLoader"] }
sevenz-rust = "0.6"
