[package]
name = "tpt_teleop"
version = "1.0.0"
edition = "2021"
publish = false

[dependencies]
libc = "0.2"
rkyv = { version = "0.8", features = ["bytecheck"] }
windows-sys = { version = "0.59", features = ["Win32_Foundation", "Win32_System_IO", "Win32_System_Threading", "Win32_Storage_FileSystem", "Win32_Security"] }
