//! Why a decode stopped.

use crate::keys::IdentityKey;
use vstd::prelude::*;
use vstd::std_specs::convert::FromSpecImpl;
use vstd::string::StringExecFns;

verus! {

/// The byte source did not hold a well-formed value.
#[derive(Clone, Copy, Debug, PartialEq, Eq, Structural)]
pub enum DecodeError {
    /// The source ended before the value did.
    UnexpectedEof,
    /// The version field held something other than the one known version.
    UnknownVersion(u32),
    /// The pending-prekey tag was neither "absent" nor "present".
    InvalidPendingPrekey(u32),
}

/// The character of one decimal digit.
pub open spec fn digit(d: nat) -> char {
    if d == 0 {
        '0'
    } else if d == 1 {
        '1'
    } else if d == 2 {
        '2'
    } else if d == 3 {
        '3'
    } else if d == 4 {
        '4'
    } else if d == 5 {
        '5'
    } else if d == 6 {
        '6'
    } else if d == 7 {
        '7'
    } else if d == 8 {
        '8'
    } else {
        '9'
    }
}

/// A number in decimal, without leading zeros.
pub open spec fn spec_decimal(v: nat) -> Seq<char>
    decreases v,
{
    if v < 10 {
        seq![digit(v)]
    } else {
        spec_decimal(v / 10).push(digit(v % 10))
    }
}

/// One decimal digit as text.
fn digit_text(d: u32) -> (s: &'static str)
    requires
        d < 10,
    ensures
        s@ == seq![digit(d as nat)],
{
    proof {
        reveal_strlit("0");
        reveal_strlit("1");
        reveal_strlit("2");
        reveal_strlit("3");
        reveal_strlit("4");
        reveal_strlit("5");
        reveal_strlit("6");
        reveal_strlit("7");
        reveal_strlit("8");
        reveal_strlit("9");
    }
    let s = if d == 0 {
        "0"
    } else if d == 1 {
        "1"
    } else if d == 2 {
        "2"
    } else if d == 3 {
        "3"
    } else if d == 4 {
        "4"
    } else if d == 5 {
        "5"
    } else if d == 6 {
        "6"
    } else if d == 7 {
        "7"
    } else if d == 8 {
        "8"
    } else {
        "9"
    };
    assert(s@ =~= seq![digit(d as nat)]);
    s
}

/// `v` in decimal.
pub fn decimal(v: u32) -> (s: String)
    ensures
        s@ == spec_decimal(v as nat),
    decreases v,
{
    if v < 10 {
        String::from_str(digit_text(v))
    } else {
        let mut s = decimal(v / 10);
        s.append(digit_text(v % 10));
        assert(s@ =~= spec_decimal(v as nat));
        s
    }
}

impl DecodeError {
    /// The failure in words.
    pub open spec fn spec_message(self) -> Seq<char> {
        match self {
            DecodeError::UnexpectedEof => "Unexpected end of input"@,
            DecodeError::UnknownVersion(v) => "Unknown session version "@ + spec_decimal(v as nat),
            DecodeError::InvalidPendingPrekey(_) => "Invalid pending prekeys"@,
        }
    }

    /// The failure in words; an unknown version is named.
    pub fn message(&self) -> (s: String)
        ensures
            s@ == self.spec_message(),
    {
        match self {
            DecodeError::UnexpectedEof => String::from_str("Unexpected end of input"),
            DecodeError::UnknownVersion(v) => {
                let mut s = String::from_str("Unknown session version ");
                let number = decimal(*v);
                s.append(number.as_str());
                s
            },
            DecodeError::InvalidPendingPrekey(_) => String::from_str("Invalid pending prekeys"),
        }
    }
}

/// Why a session could not be decoded.
#[derive(Clone, Copy, Debug, PartialEq, Eq)]
pub enum DecodeSessionError {
    /// The session was stored under another identity: the key it holds.
    LocalIdentityChanged(IdentityKey),
    /// The bytes are not a session.
    Other(DecodeError),
}

/// A session decoding failure as plain values.
pub enum DecodeSessionErrorView {
    LocalIdentityChanged(Seq<u8>),
    Other(DecodeError),
}

impl View for DecodeSessionError {
    type V = DecodeSessionErrorView;

    open spec fn view(&self) -> DecodeSessionErrorView {
        match *self {
            DecodeSessionError::LocalIdentityChanged(k) => DecodeSessionErrorView::LocalIdentityChanged(k@),
            DecodeSessionError::Other(e) => DecodeSessionErrorView::Other(e),
        }
    }
}

impl From<DecodeError> for DecodeSessionError {
    fn from(e: DecodeError) -> (r: DecodeSessionError) {
        DecodeSessionError::Other(e)
    }
}

impl FromSpecImpl<DecodeError> for DecodeSessionError {
    open spec fn obeys_from_spec() -> bool {
        true
    }

    open spec fn from_spec(e: DecodeError) -> DecodeSessionError {
        DecodeSessionError::Other(e)
    }
}

impl DecodeSessionError {
    /// The failure in words.
    pub open spec fn spec_message(self) -> Seq<char> {
        match self {
            DecodeSessionError::LocalIdentityChanged(_) => "DecodeSessionError: local identity changed"@,
            DecodeSessionError::Other(e) => "DecodeSessionError: "@ + e.spec_message(),
        }
    }

    /// The failure in words.
    pub fn message(&self) -> (s: String)
        ensures
            s@ == self.spec_message(),
    {
        match self {
            DecodeSessionError::LocalIdentityChanged(_) => String::from_str(
                "DecodeSessionError: local identity changed",
            ),
            DecodeSessionError::Other(e) => {
                let mut s = String::from_str("DecodeSessionError: ");
                let inner = e.message();
                s.append(inner.as_str());
                s
            },
        }
    }

    /// The failure underneath, where there is one.
    pub fn cause(&self) -> (c: Option<&DecodeError>)
        ensures
            match *self {
                DecodeSessionError::LocalIdentityChanged(_) => c is None,
                DecodeSessionError::Other(e) => c == Some(&e),
            },
    {
        match self {
            DecodeSessionError::LocalIdentityChanged(_) => None,
            DecodeSessionError::Other(e) => Some(e),
        }
    }
}

} // verus!
