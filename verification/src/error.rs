//! Error kinds reported by the decoder.

use vstd::prelude::*;

verus! {

/// The ways in which decoding an archive can fail.
#[derive(Clone, Copy, Debug, PartialEq, Eq, Structural)]
pub enum Error {
    /// Bad magic number, truncated header or truncated file table.
    MalformedContainer,
    /// Two symbols share a code, or the bit stream leaves the code tree.
    MalformedHuffman,
    /// A backward reference reaches before the start of the output.
    MalformedLzss,
    /// A block or a file region is shorter than its declared size.
    UnexpectedEof,
    /// The decoded length differs from the declared decompressed size.
    SizeMismatch,
    /// A file name that would be written outside the output directory.
    UnsafePath,
    /// The first decrypted block does not start with the magic number.
    WrongPassword,
}

impl Error {
    /// Whether an error of this kind ends the whole operation rather than
    /// only the file it occurred in.
    pub open spec fn fatal(self) -> bool {
        self == Error::MalformedContainer || self == Error::WrongPassword
    }

    /// The text that describes an error of this kind.
    pub open spec fn text(self) -> Seq<char> {
        match self {
            Error::MalformedContainer => "Not a CBV archive"@,
            Error::MalformedHuffman => "Malformed Huffman data"@,
            Error::MalformedLzss => "Malformed compressed data"@,
            Error::UnexpectedEof => "Unexpected end of data"@,
            Error::SizeMismatch => "Wrong decompressed size"@,
            Error::UnsafePath => "Unsafe file name"@,
            Error::WrongPassword => "Wrong password"@,
        }
    }

    /// Describes the error.
    pub fn message(&self) -> (s: &'static str)
        ensures
            s@ == self.text(),
    {
        match self {
            Error::MalformedContainer => "Not a CBV archive",
            Error::MalformedHuffman => "Malformed Huffman data",
            Error::MalformedLzss => "Malformed compressed data",
            Error::UnexpectedEof => "Unexpected end of data",
            Error::SizeMismatch => "Wrong decompressed size",
            Error::UnsafePath => "Unsafe file name",
            Error::WrongPassword => "Wrong password",
        }
    }

    /// Tells whether the error ends the whole operation.
    pub fn is_fatal(&self) -> (r: bool)
        ensures
            r == self.fatal(),
    {
        match self {
            Error::MalformedContainer => true,
            Error::WrongPassword => true,
            _ => false,
        }
    }
}

/// The view of a decoding result: the bytes of the vector, or the error.
pub open spec fn result_view(r: Result<Vec<u8>, Error>) -> Result<Seq<u8>, Error> {
    match r {
        Ok(v) => Ok(v@),
        Err(e) => Err(e),
    }
}

} // verus!
