//! A verified codec for the bencode serialization format: a lexer that
//! turns a byte buffer into tokens, a parser that shapes the tokens
//! into a recursive value tree, and a serializer that writes the tree
//! back as canonical bytes, dictionary keys in ascending byte order.

use vstd::prelude::*;

pub mod lexer;
pub mod model;
pub mod parser;

use crate::model::BValue;
use vstd::string::StringSliceAdditionalSpecFns;

verus! {

/// An error from either stage of decoding, tagged with the stage.
#[derive(Debug, Clone, PartialEq)]
pub enum Error {
    Parser(parser::Error),
    Lexer(lexer::Error),
}

impl Error {
    /// A human-readable account of the error.
    pub fn message(&self) -> String {
        match self {
            Error::Parser(err) => err.message(),
            Error::Lexer(err) => err.message(),
        }
    }
}

/// The value a byte buffer decodes to: its tokens, then their value, or
/// the first error met, tagged with the stage that found it.
pub open spec fn spec_decode(bytes: Seq<u8>) -> Result<BValue, Error> {
    match lexer::spec_lex(bytes) {
        Err(e) => Err(Error::Lexer(e)),
        Ok(ts) => match parser::spec_parse(ts) {
            Ok(v) => Ok(v),
            Err(e) => Err(Error::Parser(e)),
        },
    }
}

/// Decode a byte buffer: tokenize it, then parse the tokens.
pub fn from_bytes(data: &[u8]) -> (r: Result<parser::Bencode, Error>)
    ensures
        match r {
            Ok(v) => spec_decode(data@) == Ok::<BValue, Error>(v@),
            Err(e) => spec_decode(data@) == Err::<BValue, Error>(e),
        },
{
    match lexer::parse(data) {
        Err(e) => Err(Error::Lexer(e)),
        Ok(tokens) => match parser::parse(tokens) {
            Ok(v) => Ok(v),
            Err(e) => Err(Error::Parser(e)),
        },
    }
}

/// Decode a string through its UTF-8 bytes.
pub fn from_str(data: &str) -> (r: Result<parser::Bencode, Error>)
    ensures
        match r {
            Ok(v) => spec_decode(data.spec_bytes()) == Ok::<BValue, Error>(v@),
            Err(e) => spec_decode(data.spec_bytes()) == Err::<BValue, Error>(e),
        },
{
    from_bytes(data.as_bytes())
}

} // verus!
