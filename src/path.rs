use vstd::prelude::*;
use vstd::string::*;
use vstd::utf8::{
    decode_utf8, encode_utf8, encode_utf8_decode_utf8, encode_utf8_valid_utf8, is_ascii_chars,
    is_ascii_chars_encode_utf8, valid_utf8,
};

use crate::error::Error;
use crate::format::{legal_bytes, path_bytes, path_text};

verus! {

/// An ASCII digit or letter.
pub open spec fn is_ascii_alphanumeric(c: char) -> bool {
    ('0' <= c && c <= '9') || ('A' <= c && c <= 'Z') || ('a' <= c && c <= 'z')
}

/// One of the 32 printable ASCII characters that are neither letters, digits
/// nor the space.
pub open spec fn is_ascii_punctuation(c: char) -> bool {
    ('!' <= c && c <= '/') || (':' <= c && c <= '@') || ('[' <= c && c <= '`') || ('{' <= c
        && c <= '~')
}

/// A character that may appear in a path label.
pub open spec fn legal_char(c: char) -> bool {
    is_ascii_alphanumeric(c) || is_ascii_punctuation(c) || c == ' '
}

/// Every character of `s` may appear in a path label.
pub open spec fn legal_chars(s: Seq<char>) -> bool {
    forall|i: int| 0 <= i < s.len() ==> legal_char(#[trigger] s[i])
}

/// Relies on `String::from_utf8`: it accepts exactly the valid UTF-8 byte
/// strings, and the string then holds the characters they encode.
#[verifier::external_body]
fn string_from_utf8(v: Vec<u8>) -> (r: Option<String>)
    ensures
        r is Some <==> valid_utf8(v@),
        r is Some ==> r->Some_0@ == decode_utf8(v@),
{
    String::from_utf8(v).ok()
}

/// What validating the text `s` gives: the label itself when every character
/// is legal, else `IllegalPath` carrying the text.
pub open spec fn validation_result(s: Seq<char>, r: Result<Path, Error>) -> bool {
    match r {
        Ok(p) => legal_chars(s) && p@ == s,
        Err(e) => !legal_chars(s) && e.is_illegal_path(s),
    }
}

/// A validated path label naming an entry of an archive.
#[derive(Debug, PartialEq, PartialOrd)]
pub struct Path {
    path: String,
}

impl View for Path {
    type V = Seq<char>;

    closed spec fn view(&self) -> Seq<char> {
        self.path@
    }
}

impl Clone for Path {
    fn clone(&self) -> (r: Path)
        ensures
            r@ == self@,
    {
        proof {
            use_type_invariant(self);
        }
        Path { path: self.path.clone() }
    }
}

impl Path {
    #[verifier::type_invariant]
    spec fn inv(&self) -> bool {
        legal_chars(self.path@)
    }

    fn is_legal_path_char(ch: char) -> (r: bool)
        ensures
            r == legal_char(ch),
    {
        ('0' <= ch && ch <= '9') || ('A' <= ch && ch <= 'Z') || ('a' <= ch && ch <= 'z') || (
        '!' <= ch && ch <= '/') || (':' <= ch && ch <= '@') || ('[' <= ch && ch <= '`') || ('{'
            <= ch && ch <= '~') || ch == ' '
    }

    fn is_legal_path_str(path: &str) -> (r: bool)
        ensures
            r == legal_chars(path@),
    {
        let n = path.unicode_len();
        let mut i: usize = 0;
        while i < n
            invariant
                n == path@.len(),
                i <= n,
                forall|j: int| 0 <= j < i ==> legal_char(#[trigger] path@[j]),
            decreases n - i,
        {
            if !Self::is_legal_path_char(path.get_char(i)) {
                return false;
            }
            i = i + 1;
        }
        true
    }

    fn validate(path: &str) -> (r: Result<Path, Error>)
        ensures
            validation_result(path@, r),
    {
        if !Self::is_legal_path_str(path) {
            return Err(Error::IllegalPath { path: path.to_owned() });
        }
        Ok(Path { path: path.to_owned() })
    }

    /// Builds a label from a path as stored in an archive.
    pub fn from_maf_str(path: &str) -> (r: Result<Path, Error>)
        ensures
            validation_result(path@, r),
    {
        Self::validate(path)
    }

    /// Builds a label from a forward-slash separated path; the text is kept
    /// as it is and held to the same character set.
    pub fn from_unix_str(path: &str) -> (r: Result<Path, Error>)
        ensures
            validation_result(path@, r),
    {
        Self::validate(path)
    }

    /// The label stored as `b`, one character per byte.
    pub(crate) fn from_legal_bytes(b: &[u8]) -> (r: Option<Path>)
        requires
            legal_bytes(b@),
        ensures
            r is Some,
            r is Some ==> r->Some_0@ == path_text(b@),
    {
        let v = vstd::slice::slice_to_vec(b);
        let ghost c = path_text(b@);
        proof {
            assert(legal_chars(c));
            assert(is_ascii_chars(c));
            is_ascii_chars_encode_utf8(c);
            assert(encode_utf8(c) =~= b@);
            encode_utf8_valid_utf8(c);
            encode_utf8_decode_utf8(c);
        }
        match string_from_utf8(v) {
            Some(s) => Some(Path { path: s }),
            None => None,
        }
    }

    /// The stored form of the label: one byte per character.
    pub(crate) fn as_bytes(&self) -> (r: &[u8])
        ensures
            r@ == path_bytes(self@),
            legal_chars(self@),
    {
        proof {
            use_type_invariant(self);
            assert(is_ascii_chars(self.path@));
            is_ascii_chars_encode_utf8(self.path@);
        }
        let r = self.path.as_str().as_bytes();
        assert(r@ =~= path_bytes(self@));
        r
    }

    /// The label's text.
    pub fn path(&self) -> (r: &str)
        ensures
            r@ == self@,
    {
        self.path.as_str()
    }
}

} // verus!
