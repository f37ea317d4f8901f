[package]
name = "mpq-folder-win"
version = "0.1.0"
edition = "2021"
publish = false

[dependencies]
blp = { version = "=0.1.37", default-features = false }
dialoguer = "=0.12.0"
widestring = "=1.2.1"
windows = { version = "=0.62.2", features = ["Win32_Foundation", "Win32_Graphics_Gdi", "Win32_Security", "Win32_System_Com", "Win32_System_Com_StructuredStorage", "Win32_System_Console", "Win32_System_Diagnostics_Debug", "Win32_System_LibraryLoader", "Win32_System_Threading", "Win32_UI_Shell", "Win32_UI_Shell_Common", "Win32_UI_Shell_PropertiesSystem"] }
windows-core = "=0.62.2"
windows-implement = "=0.60.2"
winreg = "=0.56.0"
