//! The formats.
pub mod hfsplus;
pub mod hfstree;
pub mod iso;
pub mod legacy;
pub mod msi;
pub mod rar;
pub mod rpm;
pub mod sevenz;
pub mod sfx;
pub mod squashfs;
pub mod stored;
pub mod tar;
pub mod warc;
pub mod wim;
pub mod wpress;
pub mod xml;
pub mod apfs;
pub mod appimage;
pub mod ar;
pub mod bundle;
pub mod cab;
pub mod conda;
pub mod cpio;
pub mod crx;
pub mod deb;
pub mod dmg;
