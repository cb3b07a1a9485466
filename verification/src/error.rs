//! Error type for decoding and validation.

use vstd::prelude::*;

verus! {

/// Everything that can go wrong while reading, validating or transforming a
/// PRISM file.
#[derive(Debug, PartialEq, Eq)]
pub enum Error {
    BadMagic,
    UnsupportedVersion(u8),
    Truncated,
    CrcMismatch { chunk: [u8; 4] },
    MissingChunk(&'static str),
    BadHeader(&'static str),
    BadOpStream(&'static str),
    BadVector(&'static str),
    Encrypted,
    CryptoFailed,
}

/// The character of decimal digit `d`.
pub open spec fn digit_char(d: int) -> char {
    (48 + d) as char
}

/// `v` written in decimal, without leading zeros.
pub open spec fn decimal(v: nat) -> Seq<char>
    decreases v,
{
    if v < 10 {
        seq![digit_char(v as int)]
    } else {
        decimal(v / 10).push(digit_char((v % 10) as int))
    }
}

/// The text `String::from_utf8_lossy` makes of some bytes.
pub uninterp spec fn utf8_lossy(b: Seq<u8>) -> Seq<char>;

/// `String::from_utf8_lossy` (std), made an owned `String`: the bytes
/// decoded as UTF-8, each invalid sequence replaced by U+FFFD. Bytes below
/// 128 come through as the characters they encode.
#[verifier::external_body]
fn lossy_text(b: &[u8]) -> (s: String)
    ensures
        s@ == utf8_lossy(b@),
        (forall|i: int| 0 <= i < b@.len() ==> b@[i] < 128) ==> s@ == b@.map_values(
            |c: u8| c as char,
        ),
{
    String::from_utf8_lossy(b).into_owned()
}

/// The message for an error, as shown to a user.
pub open spec fn describe_spec(e: Error) -> Seq<char> {
    match e {
        Error::BadMagic => "not a PRISM file (bad magic bytes)"@,
        Error::UnsupportedVersion(v) => "unsupported format version "@ + decimal(v as nat),
        Error::Truncated => "file ends before the data it declares"@,
        Error::CrcMismatch { chunk } => "CRC mismatch in chunk "@ + utf8_lossy(chunk@),
        Error::MissingChunk(t) => "required chunk "@ + t@ + " missing"@,
        Error::BadHeader(msg) => "invalid header: "@ + msg@,
        Error::BadOpStream(msg) => "invalid raster op stream: "@ + msg@,
        Error::BadVector(msg) => "invalid vector payload: "@ + msg@,
        Error::Encrypted => "file is encrypted; decrypt it with the key first"@,
        Error::CryptoFailed => "decryption failed: wrong key or tampered data"@,
    }
}

fn digit_str(d: u8) -> (s: &'static str)
    requires
        d < 10,
    ensures
        s@ == seq![digit_char(d as int)],
{
    proof {
        reveal_strlit("0");
        reveal_strlit("1");
        reveal_strlit("2");
        reveal_strlit("3");
        reveal_strlit("4");
        reveal_strlit("5");
        reveal_strlit("6");
        reveal_strlit("7");
        reveal_strlit("8");
        reveal_strlit("9");
    }
    if d == 0 {
        "0"
    } else if d == 1 {
        "1"
    } else if d == 2 {
        "2"
    } else if d == 3 {
        "3"
    } else if d == 4 {
        "4"
    } else if d == 5 {
        "5"
    } else if d == 6 {
        "6"
    } else if d == 7 {
        "7"
    } else if d == 8 {
        "8"
    } else {
        "9"
    }
}

/// Append `v` in decimal.
fn push_decimal(s: &mut String, v: u8)
    ensures
        final(s)@ == old(s)@ + decimal(v as nat),
{
    let ghost s0 = s@;
    if v >= 100 {
        s.append(digit_str(v / 100));
        s.append(digit_str((v / 10) % 10));
        s.append(digit_str(v % 10));
        proof {
            let d0 = digit_char((v / 100) as int);
            let d1 = digit_char(((v / 10) % 10) as int);
            let d2 = digit_char((v % 10) as int);
            assert(decimal((v / 100) as nat) == seq![d0]);
            assert(decimal((v / 10) as nat) == seq![d0].push(d1));
            assert(decimal(v as nat) == seq![d0].push(d1).push(d2));
            assert(s@ =~= s0 + seq![d0].push(d1).push(d2));
        }
    } else if v >= 10 {
        s.append(digit_str(v / 10));
        s.append(digit_str(v % 10));
        proof {
            let d0 = digit_char((v / 10) as int);
            let d1 = digit_char((v % 10) as int);
            assert(decimal((v / 10) as nat) == seq![d0]);
            assert(decimal(v as nat) == seq![d0].push(d1));
            assert(s@ =~= s0 + seq![d0].push(d1));
        }
    } else {
        s.append(digit_str(v));
    }
}

impl Error {
    /// The message for this error, as shown to a user.
    pub fn describe(&self) -> (s: String)
        ensures
            s@ == describe_spec(*self),
    {
        match self {
            Error::BadMagic => String::from_str("not a PRISM file (bad magic bytes)"),
            Error::UnsupportedVersion(v) => {
                let mut s = String::from_str("unsupported format version ");
                push_decimal(&mut s, *v);
                s
            },
            Error::Truncated => String::from_str("file ends before the data it declares"),
            Error::CrcMismatch { chunk } => {
                let mut s = String::from_str("CRC mismatch in chunk ");
                let name = lossy_text(chunk.as_slice());
                s.append(name.as_str());
                s
            },
            Error::MissingChunk(t) => {
                let mut s = String::from_str("required chunk ");
                s.append(t);
                s.append(" missing");
                s
            },
            Error::BadHeader(msg) => {
                let mut s = String::from_str("invalid header: ");
                s.append(msg);
                s
            },
            Error::BadOpStream(msg) => {
                let mut s = String::from_str("invalid raster op stream: ");
                s.append(msg);
                s
            },
            Error::BadVector(msg) => {
                let mut s = String::from_str("invalid vector payload: ");
                s.append(msg);
                s
            },
            Error::Encrypted => String::from_str("file is encrypted; decrypt it with the key first"),
            Error::CryptoFailed => String::from_str("decryption failed: wrong key or tampered data"),
        }
    }
}

} // verus!
