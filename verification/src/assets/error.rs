use vstd::prelude::*;

verus! {

/// Errors produced while decoding retail archives and asset files.
#[derive(Debug)]
pub enum AssetError {
    /// A read ran past the end of the bytes at hand.
    UnexpectedEof,
    /// A structure ends before its declared size.
    Truncated(&'static str),
    /// A field holds a value the format does not allow.
    Invalid(&'static str),
    /// An entry with this path is not in the archive.
    NotFound(String),
    /// The archive compression method is not known.
    Compression(u32),
    /// A name or string is not valid UTF-8.
    Utf8,
    /// The world file is not a Jupiter EX F.E.A.R. world.
    WorldVersion(u32),
    /// The DDS pixel format is not one the renderer uploads.
    UnsupportedDds(u32),
    /// The deflate stream is corrupt.
    Zlib,
    /// Reading the underlying file failed.
    Io(String),
    /// The file is neither an Arch00 nor a REZ archive.
    UnknownArchive(String, [u8; 4]),
}

} // verus!
