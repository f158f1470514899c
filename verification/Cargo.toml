[package]
name = "better_spotlight"
version = "0.1.0"
edition = "2021"
publish = false

[dependencies]
global-hotkey = "0.7"
icns = "0.3"
image = { version = "0.25", default-features = false }
objc2 = "0.6"
objc2-app-kit = "0.3"
plist = "1"
