[package]
name = "unreal_shimloader"
version = "0.1.0"
edition = "2021"
publish = false

[dependencies]
widestring = "1"
windows-sys = { version = "0.48", features = ["Win32_Foundation", "Win32_Security", "Win32_Storage_FileSystem", "Win32_System_IO", "Win32_System_Kernel", "Win32_System_LibraryLoader", "Win32_System_WindowsProgramming", "Win32_System_SystemServices", "Win32_UI_WindowsAndMessaging"] }
retour = { version = "*", features = ["static-detour"] }
getargs = "*"
log = "0.4"
env_logger = "*"
chrono = "0.4"
once_cell = "1"
path-clean = "1"
