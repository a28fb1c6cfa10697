//! What a run is configured with: the file to read and the size of the
//! chunks to read it in.

use crate::number::{parse_usize, unsigned_literal};
use vstd::prelude::*;
use vstd::utf8::encode_utf8;

verus! {

/// Why no configuration could be built.
#[derive(Debug, Clone, Copy, PartialEq, Eq, Structural)]
pub enum ConfigError {
    /// The arguments name no file.
    MissingFile,
    /// The watermark is not a positive integer.
    InvalidWatermark,
}

impl ConfigError {
    /// What went wrong, in words.
    pub fn message(&self) -> (text: &'static str)
        ensures
            text@ == match *self {
                ConfigError::MissingFile => "Didn't get a file name"@,
                ConfigError::InvalidWatermark => "Failed to parse 'WATERMARK'"@,
            },
    {
        match self {
            ConfigError::MissingFile => "Didn't get a file name",
            ConfigError::InvalidWatermark => "Failed to parse 'WATERMARK'",
        }
    }
}

/// The watermark that `text` asks for: a positive decimal integer that fits
/// `usize`, and nothing else.
pub open spec fn watermark_of(text: Seq<char>) -> Option<usize> {
    match unsigned_literal(encode_utf8(text)) {
        Some(m) => if 0 < m <= usize::MAX {
            Some(m as usize)
        } else {
            None
        },
        None => None,
    }
}

/// A file to read, and the chunk capacity to read it with if one was asked
/// for.
pub struct Config {
    file_path: String,
    watermark: Option<usize>,
}

impl Config {
    #[verifier::type_invariant]
    spec fn well_formed(self) -> bool {
        self.watermark != Some(0usize)
    }

    /// The path of the file.
    pub closed spec fn path(self) -> Seq<char> {
        self.file_path@
    }

    /// The chunk capacity asked for, if any.
    pub closed spec fn chunk_capacity(self) -> Option<usize> {
        self.watermark
    }

    /// Builds the configuration from the program's arguments, the program's
    /// own name first, and from the watermark setting, where there is one.
    pub fn build_from(args: Vec<String>, watermark: Option<String>) -> (r: Result<
        Config,
        ConfigError,
    >)
        ensures
            match r {
                Ok(config) => {
                    &&& args@.len() >= 2
                    &&& config.path() == args@[1]@
                    &&& match watermark {
                        Some(text) => config.chunk_capacity() is Some && config.chunk_capacity()
                            == watermark_of(text@),
                        None => config.chunk_capacity() is None,
                    }
                },
                Err(ConfigError::MissingFile) => args@.len() < 2,
                Err(ConfigError::InvalidWatermark) => {
                    &&& args@.len() >= 2
                    &&& watermark matches Some(text) && watermark_of(text@) is None
                },
            },
    {
        if args.len() < 2 {
            return Err(ConfigError::MissingFile);
        }
        let file_path = args[1].clone();
        let watermark = match watermark {
            Some(text) => {
                match parse_usize(text.as_str()) {
                    Some(n) => {
                        if n == 0 {
                            return Err(ConfigError::InvalidWatermark);
                        }
                        Some(n)
                    },
                    None => {
                        return Err(ConfigError::InvalidWatermark);
                    },
                }
            },
            None => None,
        };
        Ok(Config { file_path, watermark })
    }

    /// The path of the file.
    pub fn file_path(&self) -> (path: &str)
        ensures
            path@ == self.path(),
    {
        self.file_path.as_str()
    }

    /// The chunk capacity asked for, if any.
    pub fn watermark(&self) -> (w: Option<usize>)
        ensures
            w == self.chunk_capacity(),
            w != Some(0usize),
    {
        proof {
            use_type_invariant(self);
        }
        self.watermark
    }
}

} // verus!
