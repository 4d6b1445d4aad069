[package]
name = "vaultpony"
version = "0.1.0"
edition = "2021"
publish = false

[dependencies]
aes = "0.8"
blake2 = "0.10"
camellia = "0.1"
clap = { version = "4", features = ["derive"] }
crc32fast = "1"
env_logger = "0.11"
fatfs = "0.3.6"
getrandom = "0.2"
hmac = "0.12"
kuznyechik = "0.8"
ntfs = "0.4"
pbkdf2 = { version = "0.12", features = ["hmac"] }
rpassword = "7"
serpent = "0.5"
sha2 = "0.10"
streebog = "0.10"
thiserror = "1"
twofish = "0.7"
whirlpool = "0.10"
xts-mode = "0.5"
zeroize = { version = "1", features = ["derive"] }
