//! Decoding of MIME-encoded electronic-mail header values.
//!
//! A raw header value may mix plain text with RFC 2047 encoded words
//! (`=?charset?encoding?payload?=`), folded across several physical lines.
//! The `header` module turns such a value into a sequence of typed fragments
//! whose concatenation is the logically intended text.

use vstd::prelude::*;

pub mod encodings;
pub mod header;

verus! {

/// The key in `key` occurs in `line` at position `i`.
pub open spec fn spec_key_at<T>(line: Seq<T>, i: int, key: Seq<T>) -> bool {
    &&& 0 <= i
    &&& i + key.len() <= line.len()
    &&& forall|j: int| 0 <= j < key.len() ==> line[i + j] == key[j]
}

/// The position of the first occurrence of `key` in `line` at or after
/// `from`, if any.
pub open spec fn spec_find_from<T>(line: Seq<T>, from: int, key: Seq<T>) -> Option<int>
    decreases line.len() - from,
{
    if from < 0 || from + key.len() > line.len() {
        None
    } else if spec_key_at(line, from, key) {
        Some(from)
    } else {
        spec_find_from(line, from + 1, key)
    }
}

/// What `spec_find_from` returns: the first match at or after `from`, or
/// `None` when no position at or after `from` matches.
pub proof fn lemma_find_from<T>(line: Seq<T>, from: int, key: Seq<T>)
    requires
        0 <= from,
    ensures
        match spec_find_from(line, from, key) {
            Some(i) => {
                &&& from <= i
                &&& spec_key_at(line, i, key)
                &&& forall|j: int| from <= j < i ==> !spec_key_at(line, j, key)
            },
            None => forall|j: int| from <= j ==> !spec_key_at(line, j, key),
        },
    decreases line.len() - from,
{
    if from + key.len() > line.len() {
        assert forall|j: int| from <= j implies !spec_key_at(line, j, key) by {}
    } else if spec_key_at(line, from, key) {
    } else {
        lemma_find_from(line, from + 1, key);
    }
}

/// An occurrence of `key` inside a subrange of `line` is the same occurrence
/// inside `line` itself, shifted by the subrange's start.
pub proof fn lemma_find_from_shift<T>(line: Seq<T>, lo: int, hi: int, key: Seq<T>)
    requires
        0 <= lo <= hi <= line.len(),
    ensures
        ({
            let inner = spec_find_from(line.subrange(lo, hi), 0, key);
            let outer = spec_find_from(line, lo, key);
            match inner {
                Some(i) => lo + i + key.len() <= hi && (match outer {
                    Some(v) => v == lo + i || v + key.len() > hi,
                    None => false,
                }),
                None => (match outer {
                    Some(v) => v + key.len() > hi,
                    None => true,
                }),
            }
        }),
{
    let sub = line.subrange(lo, hi);
    assert forall|j: int| 0 <= j && j + key.len() <= sub.len() implies
        spec_key_at(sub, j, key) == spec_key_at(line, lo + j, key) by {
        if spec_key_at(sub, j, key) {
            assert forall|m: int| 0 <= m < key.len() implies line[lo + j + m] == key[m] by {
                assert(sub[j + m] == key[m]);
            }
        }
        if spec_key_at(line, lo + j, key) {
            assert forall|m: int| 0 <= m < key.len() implies sub[j + m] == key[m] by {
                assert(line[lo + j + m] == key[m]);
            }
        }
    }
    lemma_find_from(sub, 0, key);
    lemma_find_from(line, lo, key);
    match spec_find_from(sub, 0, key) {
        Some(i) => {
            assert(spec_key_at(line, lo + i, key));
            match spec_find_from(line, lo, key) {
                Some(v) => {
                    if v != lo + i && v + key.len() <= hi {
                        assert(spec_key_at(sub, v - lo, key));
                    }
                },
                None => {
                    assert(!spec_key_at(line, lo + i, key));
                },
            }
        },
        None => {
            match spec_find_from(line, lo, key) {
                Some(v) => {
                    if v + key.len() <= hi {
                        assert(spec_key_at(sub, v - lo, key));
                    }
                },
                None => {},
            }
        },
    }
}

/// Whether `key` occurs in `line` starting at character position `i`.
fn key_match_at(line: &str, i: usize, key: &str) -> (r: bool)
    requires
        i + key@.len() <= line@.len(),
        line@.len() <= usize::MAX,
    ensures
        r == spec_key_at(line@, i as int, key@),
{
    let k = key.unicode_len();
    let mut j: usize = 0;
    while j < k
        invariant
            j <= k,
            k == key@.len(),
            i + k <= line@.len(),
            line@.len() <= usize::MAX,
            forall|m: int| 0 <= m < j ==> line@[i + m] == key@[m],
        decreases k - j,
    {
        if line.get_char(i + j) != key.get_char(j) {
            return false;
        }
        j += 1;
    }
    true
}

/// The position, in characters, of the first occurrence of `key` in `line`
/// at or after `ix_start`, or `None` when there is none.
pub fn find_from(line: &str, ix_start: usize, key: &str) -> (r: Option<usize>)
    requires
        ix_start <= line@.len(),
    ensures
        match r {
            Some(i) => spec_find_from(line@, ix_start as int, key@) == Some(i as int),
            None => spec_find_from(line@, ix_start as int, key@) is None,
        },
{
    let n = line.unicode_len();
    let k = key.unicode_len();
    proof {
        lemma_find_from(line@, ix_start as int, key@);
    }
    if k > n {
        return None;
    }
    let mut i = ix_start;
    while i <= n - k
        invariant
            ix_start <= i,
            k <= n,
            n == line@.len(),
            k == key@.len(),
            forall|j: int| ix_start <= j < i ==> !spec_key_at(line@, j, key@),
        decreases n - i,
    {
        if key_match_at(line, i, key) {
            proof {
                lemma_find_from(line@, ix_start as int, key@);
            }
            return Some(i);
        }
        i += 1;
    }
    proof {
        lemma_find_from(line@, ix_start as int, key@);
    }
    None
}

/// As `find_from`, over bytes instead of characters.
pub fn find_from_u8(line: &[u8], ix_start: usize, key: &[u8]) -> (r: Option<usize>)
    requires
        key@.len() > 0,
        ix_start < line@.len(),
    ensures
        match r {
            Some(i) => spec_find_from(line@, ix_start as int, key@) == Some(i as int),
            None => spec_find_from(line@, ix_start as int, key@) is None,
        },
{
    let n = line.len();
    let k = key.len();
    proof {
        lemma_find_from(line@, ix_start as int, key@);
    }
    if k > n {
        return None;
    }
    let mut i = ix_start;
    while i <= n - k
        invariant
            ix_start <= i,
            k <= n,
            n == line@.len(),
            k == key@.len(),
            forall|j: int| ix_start <= j < i ==> !spec_key_at(line@, j, key@),
        decreases n - i,
    {
        let mut j: usize = 0;
        let mut found = true;
        while j < k
            invariant
                j <= k,
                k == key@.len(),
                i + k <= n,
                n == line@.len(),
                found == (forall|m: int| 0 <= m < j ==> line@[i + m] == key@[m]),
            decreases k - j,
        {
            if line[i + j] != key[j] {
                found = false;
                j = k;
            } else {
                j += 1;
            }
        }
        if found {
            proof {
                assert(spec_key_at(line@, i as int, key@));
                lemma_find_from(line@, ix_start as int, key@);
                match spec_find_from(line@, ix_start as int, key@) {
                    Some(v) => {
                        if v < i {
                            assert(!spec_key_at(line@, v, key@));
                        }
                    },
                    None => {
                        assert(!spec_key_at(line@, i as int, key@));
                    },
                }
            }
            return Some(i);
        }
        i += 1;
    }
    proof {
        lemma_find_from(line@, ix_start as int, key@);
    }
    None
}


/// The closed taxonomy of decoding failures shared by all decode paths.
#[derive(Debug)]
pub enum MailParseError {
    /// Quoted-printable data that even tolerant parsing cannot decode,
    /// with the underlying cause.
    QuotedPrintableDecodeError(quoted_printable::QuotedPrintableError),
    /// Malformed Base64 data, with the underlying cause.
    Base64DecodeError(data_encoding::DecodeError),
    /// A charset or text-encoding failure, described in words.
    EncodingError(String),
    /// A contract violation, described in words.
    Generic(&'static str),
}

impl From<quoted_printable::QuotedPrintableError> for MailParseError {
    fn from(err: quoted_printable::QuotedPrintableError) -> (r: MailParseError) {
        MailParseError::QuotedPrintableDecodeError(err)
    }
}

impl vstd::std_specs::convert::FromSpecImpl<quoted_printable::QuotedPrintableError>
    for MailParseError {
    open spec fn obeys_from_spec() -> bool {
        true
    }

    open spec fn from_spec(err: quoted_printable::QuotedPrintableError) -> MailParseError {
        MailParseError::QuotedPrintableDecodeError(err)
    }
}

impl From<data_encoding::DecodeError> for MailParseError {
    fn from(err: data_encoding::DecodeError) -> (r: MailParseError) {
        MailParseError::Base64DecodeError(err)
    }
}

impl vstd::std_specs::convert::FromSpecImpl<data_encoding::DecodeError> for MailParseError {
    open spec fn obeys_from_spec() -> bool {
        true
    }

    open spec fn from_spec(err: data_encoding::DecodeError) -> MailParseError {
        MailParseError::Base64DecodeError(err)
    }
}

impl From<String> for MailParseError {
    fn from(err: String) -> (r: MailParseError) {
        MailParseError::EncodingError(err)
    }
}

impl vstd::std_specs::convert::FromSpecImpl<String> for MailParseError {
    open spec fn obeys_from_spec() -> bool {
        true
    }

    open spec fn from_spec(err: String) -> MailParseError {
        MailParseError::EncodingError(err)
    }
}

/// One header of a mail message: a zero-copy (key, value) pair of byte
/// spans borrowed from the original message buffer. Decoding the value is a
/// separate, opt-in step through `header::normalized_tokens`.
pub struct MailHeader<'a> {
    key: &'a [u8],
    value: &'a [u8],
}

impl<'a> MailHeader<'a> {
    /// The raw bytes of the header's key.
    pub closed spec fn spec_key(self) -> Seq<u8> {
        self.key@
    }

    /// The raw bytes of the header's value.
    pub closed spec fn spec_value(self) -> Seq<u8> {
        self.value@
    }

    /// A view of one header line's pieces, borrowing the message buffer.
    pub fn new(key: &'a [u8], value: &'a [u8]) -> (r: MailHeader<'a>)
        ensures
            r.spec_key() == key@,
            r.spec_value() == value@,
    {
        MailHeader { key, value }
    }

    /// The raw key bytes, without any decoding.
    pub fn get_key_raw(&self) -> (r: &'a [u8])
        ensures
            r@ == self.spec_key(),
    {
        self.key
    }

    /// The raw value bytes, without any decoding.
    pub fn get_value_raw(&self) -> (r: &'a [u8])
        ensures
            r@ == self.spec_value(),
    {
        self.value
    }
}

} // verus!
