//! What to do with which file: the mode follows from the file's name.
use crate::gzip::{block_header_spec, decompress, member_scan, DeflateBlockHeader, GzipError, GzipMember};
use vstd::prelude::*;
use vstd::string::StringSliceAdditionalSpecFns;
use vstd::utf8::encode_utf8;

verus! {

/// What is done with a file.
#[derive(Clone, Copy, Debug, PartialEq, Eq, Structural)]
pub enum Mode {
    Compression,
    Decompression,
}

/// A file and what to do with it.
#[derive(Debug)]
pub struct Config {
    filename: String,
    mode: Mode,
}

/// What running a configuration on the contents of its file gave.
#[derive(Debug)]
pub enum Outcome {
    /// The file is to be compressed. Nothing has been done to its contents.
    ToCompress,
    /// The file holds a gzip member, whose framing was read.
    Framing(GzipMember),
}

/// `bytes` end with the extension of compressed files, `.rgz`.
pub open spec fn ends_with_extension(bytes: Seq<u8>) -> bool {
    let len = bytes.len() as int;
    &&& len >= 4
    &&& bytes[len - 4] == 0x2e
    &&& bytes[len - 3] == 0x72
    &&& bytes[len - 2] == 0x67
    &&& bytes[len - 1] == 0x7a
}

/// The mode for a file of the given name: decompression where the name, as
/// UTF-8, ends with `.rgz`, compression otherwise.
pub open spec fn mode_for(filename: Seq<char>) -> Mode {
    if ends_with_extension(encode_utf8(filename)) {
        Mode::Decompression
    } else {
        Mode::Compression
    }
}

/// Whether `filename` ends with `.rgz`.
pub fn has_compressed_file_extension(filename: &str) -> (res: bool)
    ensures
        res == ends_with_extension(encode_utf8(filename@)),
{
    let bytes = filename.as_bytes();
    let len = bytes.len();

    len >= 4 && bytes[len - 4] == 0x2e && bytes[len - 3] == 0x72 && bytes[len - 2] == 0x67
        && bytes[len - 1] == 0x7a
}

impl Config {
    /// The name of the file.
    pub closed spec fn spec_filename(self) -> Seq<char> {
        self.filename@
    }

    /// What is done with the file.
    pub closed spec fn spec_mode(self) -> Mode {
        self.mode
    }

    /// Reads the command line: the argument behind the program's name is the
    /// file, and its name decides the mode.
    pub fn new(args: &[String]) -> (res: Result<Config, &'static str>)
        ensures
            args@.len() < 2 ==> (res matches Err(message) && message@
                == "not enough arguments"@),
            args@.len() >= 2 ==> (res matches Ok(config) && config.spec_filename() == args@[1]@
                && config.spec_mode() == mode_for(args@[1]@)),
    {
        if args.len() < 2 {
            return Err("not enough arguments");
        }
        let filename = args[1].clone();
        let mode = {
            if has_compressed_file_extension(filename.as_str()) {
                Mode::Decompression
            } else {
                Mode::Compression
            }
        };

        Ok(Config { filename, mode })
    }

    /// The name of the file.
    pub fn filename(&self) -> (filename: &String)
        ensures
            filename@ == self.spec_filename(),
    {
        &self.filename
    }

    /// What is done with the file.
    pub fn mode(&self) -> (mode: Mode)
        ensures
            mode == self.spec_mode(),
    {
        self.mode
    }

    /// Carries out the mode on the contents of the file. In compression mode
    /// nothing is done to them. In decompression mode the framing of the
    /// member is read, and the first check that fails names the error.
    pub fn run(self, contents: &[u8]) -> (res: Result<Outcome, GzipError>)
        ensures
            self.spec_mode() == Mode::Compression ==> (res matches Ok(Outcome::ToCompress)),
            self.spec_mode() == Mode::Decompression ==> match res {
                Ok(outcome) => {
                    &&& outcome matches Outcome::Framing(member)
                    &&& member_scan(contents@).0 is None
                    &&& member.header.is_read_from(contents@)
                    &&& member.payload_offset == member_scan(contents@).1
                    &&& member.payload_offset <= contents@.len()
                    &&& Ok::<DeflateBlockHeader, GzipError>(member.block_header)
                        == block_header_spec(contents@[member.payload_offset - 1])
                },
                Err(e) => member_scan(contents@).0 == Some(e),
            },
    {
        match self.mode {
            Mode::Compression => Ok(Outcome::ToCompress),
            Mode::Decompression => {
                let member = decompress(contents)?;
                Ok(Outcome::Framing(member))
            },
        }
    }
}

} // verus!
