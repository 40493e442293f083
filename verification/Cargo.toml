[package]
name = "wincrust"
version = "0.1.0"
edition = "2021"
publish = false

[dependencies]
anyhow = "1"
block2 = "0.6"
clap = { version = "4", features = ["derive", "env"] }
getrandom = "0.2"
hmac = "0.12"
image = { version = "0.25", default-features = false, features = ["png"] }
objc2 = "0.6"
objc2-app-kit = "0.3"
objc2-application-services = "0.3"
objc2-core-foundation = "0.3"
objc2-core-graphics = "0.3"
objc2-foundation = "0.3"
objc2-screen-capture-kit = "0.3"
objc2-vision = "0.3"
schemars = "1"
serde = { version = "1", features = ["derive"] }
serde_json = "1"
sha2 = "0.10"
tokio = { version = "1", features = ["macros", "rt-multi-thread", "sync", "time"] }
tracing = "0.1"
tracing-subscriber = { version = "0.3", features = ["env-filter"] }
unicode-normalization = "0.1"
windows = { version = "0.62", features = ["Win32_Foundation", "Win32_Graphics_Gdi", "Win32_Storage_Xps", "Win32_System_StationsAndDesktops", "Win32_UI_HiDpi", "Win32_UI_Input_KeyboardAndMouse", "Win32_UI_WindowsAndMessaging"] }
