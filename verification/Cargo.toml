[package]
name = "newtua_core"
version = "0.1.0"
edition = "2021"
publish = false

[dependencies]
flate2 = "=1.1.10"
bzip2 = "=0.6.1"
xz2 = "=0.1.7"
zstd = "=0.13.4"
lz4_flex = "=0.11.6"
snap = "=1.1.2"
brotli-decompressor = "=6.2.0"
lzfse_rust = "=0.2.1"
base64 = "=0.22.1"
encoding_rs = "=0.8.44"
chardetng = "=0.1.17"
roxmltree = "=0.21.2"
goblin = "=0.10.7"
newtua-mscompress = "=0.1.0"
newtua-dos = "=0.1.4"
newtua-mac = "=0.1.1"
newtua-stuffit = "=0.1.2"
newtua-amiga = "=0.1.1"
newtua-alz = "=0.1.2"
newtua-nsis = "=0.1.1"
cpio = "=0.4.2"
tar = "=0.4.46"
ar = "=0.9.0"
sevenz-rust2 = "=0.21.6"
warc = "=0.4.0"
msi = "=0.11.1"
cfb = "=0.16.0"
rpm = { version = "=0.30.2", default-features = false }
hfsplus = "=0.4.0"
apfs-core = "=0.2.6"
