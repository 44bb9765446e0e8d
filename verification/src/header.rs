//! The header-value pipeline: tokenizer, encoded-word decoder, and
//! whitespace normalizer.

use vstd::prelude::*;
use vstd::utf8::encode_utf8;

use crate::encodings::base64_mime_decode;
use crate::encodings::base64_mime_decoded;
use crate::encodings::char_is_whitespace;
use crate::encodings::charset_decode;
use crate::encodings::charset_decoded;
use crate::encodings::is_unicode_space;
use crate::encodings::qp_decode_robust;
use crate::encodings::qp_decoded_robust;
use crate::find_from;
use crate::lemma_find_from;
use crate::spec_find_from;
use crate::spec_key_at;

verus! {

/// One fragment of a decoded header value.
#[derive(Debug, PartialEq, Eq)]
pub enum HeaderToken<'a> {
    /// Literal text, exactly as it stood in the input.
    Text(&'a str),
    /// A run made only of whitespace characters (possibly empty).
    Whitespace(&'a str),
    /// A line fold; after normalization it may carry the single-space
    /// replacement text.
    Newline(Option<String>),
    /// The decoded text of one well-formed encoded word.
    DecodedWord(String),
}

/// The mathematical shape of a `HeaderToken`: each variant's text as a
/// sequence of characters.
pub ghost enum TokenView {
    Text(Seq<char>),
    Whitespace(Seq<char>),
    Newline(Option<Seq<char>>),
    DecodedWord(Seq<char>),
}

impl<'a> View for HeaderToken<'a> {
    type V = TokenView;

    open spec fn view(&self) -> TokenView {
        match self {
            HeaderToken::Text(s) => TokenView::Text(s@),
            HeaderToken::Whitespace(s) => TokenView::Whitespace(s@),
            HeaderToken::Newline(o) => TokenView::Newline(
                match o {
                    Some(s) => Some(s@),
                    None => None,
                },
            ),
            HeaderToken::DecodedWord(s) => TokenView::DecodedWord(s@),
        }
    }
}

/// The views of a sequence of tokens, in order.
pub open spec fn views_of(toks: Seq<HeaderToken>) -> Seq<TokenView> {
    Seq::new(toks.len(), |i: int| toks[i]@)
}


/// A character beside which an encoded-word delimiter is legitimate:
/// whitespace or one of the punctuation marks RFC 2047 allows there.
pub open spec fn spec_boundary_char(c: char) -> bool {
    ||| is_unicode_space(c)
    ||| c == '"'
    ||| c == '('
    ||| c == ')'
    ||| c == '<'
    ||| c == '>'
    ||| c == ','
}

/// Position `ix` of `line` is a legitimate delimiter boundary: absent, at or
/// beyond the line's end, or holding a boundary character.
pub open spec fn spec_is_boundary(line: Seq<char>, ix: Option<int>) -> bool {
    match ix {
        None => true,
        Some(i) => i >= line.len() || spec_boundary_char(line[i]),
    }
}

/// Whether character position `ix` of `line` may stand immediately outside
/// an encoded-word delimiter.
pub fn is_boundary(line: &str, ix: Option<usize>) -> (r: bool)
    ensures
        r == spec_is_boundary(line@, match ix {
            Some(i) => Some(i as int),
            None => None,
        }),
{
    match ix {
        None => true,
        Some(i) => {
            if i >= line.unicode_len() {
                true
            } else {
                let c = line.get_char(i);
                char_is_whitespace(c) || c == '"' || c == '(' || c == ')' || c == '<' || c == '>'
                    || c == ','
            }
        },
    }
}

/// Every character of `s` is whitespace.
pub open spec fn spec_all_space(s: Seq<char>) -> bool {
    forall|i: int| 0 <= i < s.len() ==> is_unicode_space(s[i])
}

/// `s` with every underscore replaced by a space, as quoted-printable
/// encoded words write spaces.
pub open spec fn spec_replace_underscores(s: Seq<char>) -> Seq<char> {
    Seq::new(s.len(), |i: int| if s[i] == '_' { ' ' } else { s[i] })
}

/// The length of `s` once trailing whitespace is removed.
pub open spec fn spec_trimmed_len(s: Seq<char>) -> int
    decreases s.len(),
{
    if s.len() > 0 && is_unicode_space(s[s.len() - 1]) {
        spec_trimmed_len(s.drop_last())
    } else {
        s.len() as int
    }
}

/// The byte content of a quoted-printable encoded-word payload: underscores
/// become spaces, the whitespace-trimmed prefix is decoded tolerantly, and
/// the trimmed trailing whitespace is re-appended verbatim as raw bytes.
pub open spec fn spec_qp_word_bytes(payload: Seq<char>) -> Option<Seq<u8>> {
    let replaced = spec_replace_underscores(payload);
    let keep = spec_trimmed_len(replaced);
    match qp_decoded_robust(encode_utf8(replaced.subrange(0, keep))) {
        None => None,
        Some(d) => Some(d + encode_utf8(replaced.subrange(keep, replaced.len() as int))),
    }
}

/// The decoded text of the interior of an encoded word
/// (`charset?encoding?payload`, without the delimiters), or `None` where
/// its structure, transfer coding, payload or charset is unusable.
pub open spec fn spec_decode_word(encoded: Seq<char>) -> Option<Seq<char>> {
    match spec_find_from(encoded, 0, seq!['?']) {
        None => None,
        Some(i1) => match spec_find_from(encoded, i1 + 1, seq!['?']) {
            None => None,
            Some(i2) => {
                let label = encoded.subrange(0, i1);
                let coding = encoded.subrange(i1 + 1, i2);
                let payload = encoded.subrange(i2 + 1, encoded.len() as int);
                let bytes = if coding == seq!['B'] || coding == seq!['b'] {
                    base64_mime_decoded(encode_utf8(payload))
                } else if coding == seq!['Q'] || coding == seq!['q'] {
                    spec_qp_word_bytes(payload)
                } else {
                    None
                };
                match bytes {
                    None => None,
                    Some(bs) => charset_decoded(encode_utf8(label), bs),
                }
            },
        },
    }
}

/// The quoted-printable payload transformation: underscores to spaces,
/// tolerant decoding of the trimmed prefix, trailing whitespace re-appended
/// as raw bytes.
fn qp_word_bytes(payload: &str) -> (r: Option<Vec<u8>>)
    ensures
        match r {
            Some(v) => spec_qp_word_bytes(payload@) == Some(v@),
            None => spec_qp_word_bytes(payload@) is None,
        },
{
    let plen = payload.unicode_len();
    let mut replaced = String::new();
    let mut i: usize = 0;
    while i < plen
        invariant
            i <= plen,
            plen == payload@.len(),
            replaced@ == spec_replace_underscores(payload@).subrange(0, i as int),
        decreases plen - i,
    {
        let c = payload.get_char(i);
        if c == '_' {
            replaced.append(" ");
            proof {
                reveal_strlit(" ");
            }
        } else {
            replaced.append(payload.substring_char(i, i + 1));
        }
        proof {
            assert(replaced@ =~= spec_replace_underscores(payload@).subrange(0, i + 1));
        }
        i += 1;
    }
    let ghost rep = spec_replace_underscores(payload@);
    proof {
        assert(replaced@ =~= rep);
    }
    let rlen = replaced.as_str().unicode_len();
    let mut keep = rlen;
    proof {
        assert(rep.subrange(0, rlen as int) =~= rep);
    }
    loop
        invariant
            keep <= rlen,
            rlen == rep.len(),
            replaced@ == rep,
            spec_trimmed_len(rep) == spec_trimmed_len(rep.subrange(0, keep as int)),
        ensures
            keep <= rlen,
            spec_trimmed_len(rep) == keep,
        decreases keep,
    {
        if keep == 0 {
            break;
        }
        let c = replaced.as_str().get_char(keep - 1);
        if !char_is_whitespace(c) {
            proof {
                assert(spec_trimmed_len(rep.subrange(0, keep as int)) == keep);
            }
            break;
        }
        proof {
            assert(rep.subrange(0, keep as int).drop_last() =~= rep.subrange(0, keep - 1));
        }
        keep -= 1;
    }
    let trimmed = replaced.as_str().substring_char(0, keep);
    let tail = replaced.as_str().substring_char(keep, rlen);
    match qp_decode_robust(trimmed) {
        Err(_) => None,
        Ok(mut d) => {
            let mut tail_bytes = tail.as_bytes_vec();
            d.append(&mut tail_bytes);
            Some(d)
        },
    }
}

/// Decodes the interior of one encoded word, or reports that it cannot be
/// decoded.
pub fn decode_word(encoded: &str) -> (r: Option<String>)
    ensures
        match r {
            Some(s) => spec_decode_word(encoded@) == Some(s@),
            None => spec_decode_word(encoded@) is None,
        },
{
    proof {
        reveal_strlit("?");
        assert("?"@ =~= seq!['?']);
    }
    let n = encoded.unicode_len();
    let ix_delim1 = match find_from(encoded, 0, "?") {
        Some(v) => v,
        None => {
            return None;
        },
    };
    proof {
        lemma_find_from(encoded@, 0, seq!['?']);
    }
    let ix_delim2 = match find_from(encoded, ix_delim1 + 1, "?") {
        Some(v) => v,
        None => {
            return None;
        },
    };
    proof {
        lemma_find_from(encoded@, ix_delim1 + 1, seq!['?']);
    }
    let label = encoded.substring_char(0, ix_delim1);
    let coding = encoded.substring_char(ix_delim1 + 1, ix_delim2);
    let payload = encoded.substring_char(ix_delim2 + 1, n);
    let ghost coding_view = encoded@.subrange(ix_delim1 + 1, ix_delim2 as int);
    let bytes: Vec<u8>;
    if coding.unicode_len() == 1 {
        let c = coding.get_char(0);
        if c == 'B' || c == 'b' {
            proof {
                if c == 'B' {
                    assert(coding_view =~= seq!['B']);
                } else {
                    assert(coding_view =~= seq!['b']);
                }
            }
            bytes = match base64_mime_decode(payload) {
                Ok(v) => v,
                Err(_) => {
                    return None;
                },
            };
        } else if c == 'Q' || c == 'q' {
            proof {
                if c == 'Q' {
                    assert(coding_view =~= seq!['Q']);
                } else {
                    assert(coding_view =~= seq!['q']);
                }
                assert(coding_view != seq!['B'] && coding_view != seq!['b']);
            }
            bytes = match qp_word_bytes(payload) {
                Some(v) => v,
                None => {
                    return None;
                },
            };
        } else {
            proof {
                assert(coding_view[0] == c);
                assert(coding_view != seq!['B'] && coding_view != seq!['b']);
                assert(coding_view != seq!['Q'] && coding_view != seq!['q']);
            }
            return None;
        }
    } else {
        proof {
            assert(coding_view != seq!['B'] && coding_view != seq!['b']);
            assert(coding_view != seq!['Q'] && coding_view != seq!['q']);
        }
        return None;
    }
    charset_decode(label, &bytes)
}


/// The first terminator `?=` at or after `from` whose right side is a
/// legitimate boundary; candidates that fail the boundary check are passed
/// over.
pub open spec fn spec_find_terminator(line: Seq<char>, from: int) -> Option<int>
    decreases line.len() - from when 0 <= from via spec_find_terminator_decreases
{
    match spec_find_from(line, from, seq!['?', '=']) {
        None => None,
        Some(ix_end) => if spec_is_boundary(line, Some(ix_end + 2)) {
            Some(ix_end)
        } else {
            spec_find_terminator(line, ix_end + 2)
        },
    }
}

#[via_fn]
proof fn spec_find_terminator_decreases(line: Seq<char>, from: int) {
    lemma_find_from(line, from, seq!['?', '=']);
}

/// Where `spec_find_terminator` points: a terminator within the line, after
/// `from`, with a boundary on its right.
pub proof fn lemma_find_terminator(line: Seq<char>, from: int)
    requires
        0 <= from,
    ensures
        match spec_find_terminator(line, from) {
            Some(i) => from <= i && spec_key_at(line, i, seq!['?', '=']) && spec_is_boundary(
                line,
                Some(i + 2),
            ),
            None => true,
        },
    decreases line.len() - from,
{
    lemma_find_from(line, from, seq!['?', '=']);
    match spec_find_from(line, from, seq!['?', '=']) {
        None => {},
        Some(ix_end) => {
            if !spec_is_boundary(line, Some(ix_end + 2)) {
                lemma_find_terminator(line, ix_end + 2);
            }
        },
    }
}

/// A whitespace fragment where the text is entirely blank, a text fragment
/// otherwise.
pub open spec fn spec_text_or_space(s: Seq<char>) -> TokenView {
    if spec_all_space(s) {
        TokenView::Whitespace(s)
    } else {
        TokenView::Text(s)
    }
}

/// The fragments of one unfolded line from scan position `ix` on: everything
/// up to the next legitimate encoded word is literal text or whitespace, a
/// decodable encoded word becomes a decoded-word fragment, and a malformed
/// one stays as literal text.
pub open spec fn spec_tokenize_line_from(line: Seq<char>, ix: int) -> Seq<TokenView>
    decreases line.len() - ix when 0 <= ix <= line.len() via spec_tokenize_line_from_decreases
{
    match spec_find_from(line, ix, seq!['=', '?']) {
        None => seq![spec_text_or_space(line.subrange(ix, line.len() as int))],
        Some(v) => {
            let ix_begin = v + 2;
            let left = if v >= 1 { Some(v - 1) } else { None::<int> };
            if !spec_is_boundary(line, left) {
                seq![TokenView::Text(line.subrange(ix, ix_begin))] + spec_tokenize_line_from(
                    line,
                    ix_begin,
                )
            } else {
                let head = seq![spec_text_or_space(line.subrange(ix, v))];
                match spec_find_terminator(line, ix_begin) {
                    None => head + seq![TokenView::Text(seq!['=', '?'])]
                        + spec_tokenize_line_from(line, ix_begin),
                    Some(ix_end) => {
                        let word = match spec_decode_word(line.subrange(ix_begin, ix_end)) {
                            Some(d) => TokenView::DecodedWord(d),
                            None => TokenView::Text(line.subrange(v, ix_end + 2)),
                        };
                        head + seq![word] + spec_tokenize_line_from(line, ix_end + 2)
                    },
                }
            }
        },
    }
}

#[via_fn]
proof fn spec_tokenize_line_from_decreases(line: Seq<char>, ix: int) {
    lemma_find_from(line, ix, seq!['=', '?']);
    match spec_find_from(line, ix, seq!['=', '?']) {
        Some(v) => {
            lemma_find_terminator(line, v + 2);
        },
        None => {},
    }
}

/// Whether `s` is entirely whitespace.
pub fn all_space(s: &str) -> (r: bool)
    ensures
        r == spec_all_space(s@),
{
    let n = s.unicode_len();
    let mut i: usize = 0;
    while i < n
        invariant
            i <= n,
            n == s@.len(),
            forall|j: int| 0 <= j < i ==> is_unicode_space(s@[j]),
        decreases n - i,
    {
        if !char_is_whitespace(s.get_char(i)) {
            return false;
        }
        i += 1;
    }
    true
}

/// The first terminator `?=` at or after `ix_begin` with a boundary on its
/// right, or `None` when the line holds none.
pub fn find_terminator(line: &str, ix_begin: usize) -> (r: Option<usize>)
    requires
        ix_begin <= line@.len(),
    ensures
        match r {
            Some(i) => spec_find_terminator(line@, ix_begin as int) == Some(i as int) && i + 2
                <= line@.len(),
            None => spec_find_terminator(line@, ix_begin as int) is None,
        },
{
    proof {
        reveal_strlit("?=");
        assert("?="@ =~= seq!['?', '=']);
    }
    let n = line.unicode_len();
    let mut ix_end_search = ix_begin;
    loop
        invariant
            ix_begin <= ix_end_search <= n,
            n == line@.len(),
            "?="@ == seq!['?', '='],
            spec_find_terminator(line@, ix_begin as int) == spec_find_terminator(
                line@,
                ix_end_search as int,
            ),
        decreases n - ix_end_search,
    {
        match find_from(line, ix_end_search, "?=") {
            Some(ix_end) => {
                proof {
                    lemma_find_from(line@, ix_end_search as int, seq!['?', '=']);
                }
                if is_boundary(line, Some(ix_end + 2)) {
                    return Some(ix_end);
                }
                ix_end_search = ix_end + 2;
            },
            None => {
                return None;
            },
        }
    }
}

/// Scans one already-unfolded line into fragments.
#[verifier::rlimit(50)]
pub fn tokenize_header_line(line: &str) -> (r: Vec<HeaderToken>)
    ensures
        views_of(r@) == spec_tokenize_line_from(line@, 0),
{
    let n = line.unicode_len();
    let mut result: Vec<HeaderToken> = Vec::new();
    let mut ix_search: usize = 0;
    proof {
        assert(views_of(result@) + spec_tokenize_line_from(line@, 0)
            =~= spec_tokenize_line_from(line@, 0));
    }
    loop
        invariant_except_break
            views_of(result@) + spec_tokenize_line_from(line@, ix_search as int)
                =~= spec_tokenize_line_from(line@, 0),
        invariant
            ix_search <= n,
            n == line@.len(),
        ensures
            views_of(result@) =~= spec_tokenize_line_from(line@, 0),
        decreases n - ix_search,
    {
        proof {
            reveal_strlit("=?");
            assert("=?"@ =~= seq!['=', '?']);
        }
        let ghost ix0 = ix_search as int;
        let ghost pending = spec_tokenize_line_from(line@, ix0);
        match find_from(line, ix_search, "=?") {
            Some(v) => {
                proof {
                    lemma_find_from(line@, ix0, seq!['=', '?']);
                }
                let ix_begin = v + 2;
                let left: Option<usize> = if ix_begin >= 3 {
                    Some(ix_begin - 3)
                } else {
                    None
                };
                proof {
                    assert((match left {
                        Some(i) => Some(i as int),
                        None => None::<int>,
                    }) == (if v as int >= 1 {
                        Some(v as int - 1)
                    } else {
                        None::<int>
                    }));
                }
                if !is_boundary(line, left) {
                    let ghost pre = result@;
                    result.push(HeaderToken::Text(line.substring_char(ix_search, ix_begin)));
                    proof {
                        assert(views_of(result@) =~= views_of(pre) + seq![
                            TokenView::Text(line@.subrange(ix0, ix_begin as int)),
                        ]);
                        assert(pending =~= seq![TokenView::Text(line@.subrange(ix0, ix_begin as int))]
                            + spec_tokenize_line_from(line@, ix_begin as int));
                        assert(views_of(result@) + spec_tokenize_line_from(line@, ix_begin as int)
                            =~= spec_tokenize_line_from(line@, 0));
                    }
                    ix_search = ix_begin;
                    continue;
                }
                let head_str = line.substring_char(ix_search, v);
                let head_tok = if all_space(head_str) {
                    HeaderToken::Whitespace(head_str)
                } else {
                    HeaderToken::Text(head_str)
                };
                let ghost pre = result@;
                result.push(head_tok);
                proof {
                    assert(views_of(result@) =~= views_of(pre) + seq![
                        spec_text_or_space(line@.subrange(ix0, v as int)),
                    ]);
                }
                let ghost after_head = result@;
                match find_terminator(line, ix_begin) {
                    Some(ix_end) => {
                        proof {
                            lemma_find_terminator(line@, ix_begin as int);
                        }
                        let ghost word_view = match spec_decode_word(
                            line@.subrange(ix_begin as int, ix_end as int),
                        ) {
                            Some(d) => TokenView::DecodedWord(d),
                            None => TokenView::Text(line@.subrange(v as int, ix_end + 2)),
                        };
                        match decode_word(line.substring_char(ix_begin, ix_end)) {
                            Some(decoded) => {
                                result.push(HeaderToken::DecodedWord(decoded));
                            },
                            None => {
                                result.push(HeaderToken::Text(
                                    line.substring_char(v, ix_end + 2),
                                ));
                            },
                        }
                        proof {
                            assert(views_of(result@) =~= views_of(after_head) + seq![word_view]);
                            assert(pending =~= seq![spec_text_or_space(line@.subrange(ix0, v as int))]
                                + seq![word_view]
                                + spec_tokenize_line_from(line@, ix_end + 2));
                            assert(views_of(result@) + spec_tokenize_line_from(line@, ix_end + 2)
                                =~= spec_tokenize_line_from(line@, 0));
                        }
                        ix_search = ix_end + 2;
                    },
                    None => {
                        result.push(HeaderToken::Text("=?"));
                        proof {
                            assert(views_of(result@) =~= views_of(after_head) + seq![
                                TokenView::Text(seq!['=', '?']),
                            ]);
                            assert(pending =~= seq![spec_text_or_space(line@.subrange(ix0, v as int))]
                                + seq![TokenView::Text(seq!['=', '?'])]
                                + spec_tokenize_line_from(line@, ix_begin as int));
                            assert(views_of(result@) + spec_tokenize_line_from(line@, ix_begin as int)
                                =~= spec_tokenize_line_from(line@, 0));
                        }
                        ix_search = ix_begin;
                    },
                }
            },
            None => {
                let rest = line.substring_char(ix_search, n);
                let ghost pre = result@;
                if all_space(rest) {
                    result.push(HeaderToken::Whitespace(rest));
                } else {
                    result.push(HeaderToken::Text(rest));
                }
                proof {
                    assert(views_of(result@) =~= views_of(pre) + seq![
                        spec_text_or_space(line@.subrange(ix0, n as int)),
                    ]);
                    assert(pending =~= seq![spec_text_or_space(line@.subrange(ix0, n as int))]);
                    assert(views_of(result@) =~= spec_tokenize_line_from(line@, 0));
                }
                break;
            },
        }
    }
    result
}


/// `s` with one trailing carriage return removed, as a line terminator
/// `\r\n` leaves one before the split point.
pub open spec fn spec_strip_cr(s: Seq<char>) -> Seq<char> {
    if s.len() > 0 && s[s.len() - 1] == '\r' {
        s.drop_last()
    } else {
        s
    }
}

/// The physical lines of `s`: split at every line feed, one carriage return
/// stripped before each split point, and no final empty line when `s` ends
/// with a line feed.
pub open spec fn spec_lines(s: Seq<char>) -> Seq<Seq<char>>
    decreases s.len() via spec_lines_decreases
{
    if s.len() == 0 {
        Seq::empty()
    } else {
        match spec_find_from(s, 0, seq!['\n']) {
            None => seq![s],
            Some(i) => seq![spec_strip_cr(s.subrange(0, i))] + spec_lines(
                s.subrange(i + 1, s.len() as int),
            ),
        }
    }
}

#[via_fn]
proof fn spec_lines_decreases(s: Seq<char>) {
    lemma_find_from(s, 0, seq!['\n']);
}

/// `s` with its leading whitespace removed.
pub open spec fn spec_trim_start(s: Seq<char>) -> Seq<char>
    decreases s.len(),
{
    if s.len() > 0 && is_unicode_space(s[0]) {
        spec_trim_start(s.subrange(1, s.len() as int))
    } else {
        s
    }
}

/// The fragments of the given lines, a line-break marker between every two
/// consecutive lines, each line's leading whitespace stripped; `first` says
/// whether the first given line opens the header value.
pub open spec fn spec_tok_lines(ls: Seq<Seq<char>>, first: bool) -> Seq<TokenView>
    decreases ls.len(),
{
    if ls.len() == 0 {
        Seq::empty()
    } else {
        (if first {
            Seq::<TokenView>::empty()
        } else {
            seq![TokenView::Newline(None)]
        }) + spec_tokenize_line_from(spec_trim_start(ls[0]), 0) + spec_tok_lines(
            ls.drop_first(),
            false,
        )
    }
}

/// The flat fragment sequence of a raw, possibly folded header value,
/// before whitespace normalization.
pub open spec fn spec_tokenize_header(s: Seq<char>) -> Seq<TokenView> {
    spec_tok_lines(spec_lines(s), true)
}

/// `line` with its leading whitespace removed.
pub fn trim_start_str(line: &str) -> (r: &str)
    ensures
        r@ == spec_trim_start(line@),
{
    let n = line.unicode_len();
    let mut i: usize = 0;
    proof {
        assert(line@.subrange(0, n as int) =~= line@);
    }
    loop
        invariant
            i <= n,
            n == line@.len(),
            spec_trim_start(line@) == spec_trim_start(line@.subrange(i as int, n as int)),
        ensures
            i <= n,
            n == line@.len(),
            spec_trim_start(line@) == spec_trim_start(line@.subrange(i as int, n as int)),
            i == n || !is_unicode_space(line@[i as int]),
        decreases n - i,
    {
        if i == n {
            break;
        }
        if !char_is_whitespace(line.get_char(i)) {
            break;
        }
        proof {
            assert(line@.subrange(i as int, n as int).subrange(1, n - i)
                =~= line@.subrange(i + 1, n as int));
        }
        i += 1;
    }
    let r = line.substring_char(i, n);
    proof {
        if i < n {
            assert(spec_trim_start(line@.subrange(i as int, n as int))
                == line@.subrange(i as int, n as int));
        } else {
            assert(line@.subrange(i as int, n as int).len() == 0);
        }
    }
    r
}

/// Splits the raw value into lines, strips continuation-line indentation,
/// tokenizes each line, and joins the results with line-break markers.
#[verifier::rlimit(50)]
pub fn tokenize_header(value: &str) -> (r: Vec<HeaderToken>)
    ensures
        views_of(r@) == spec_tokenize_header(value@),
{
    let n = value.unicode_len();
    let mut tokens: Vec<HeaderToken> = Vec::new();
    let mut pos: usize = 0;
    let mut first = true;
    proof {
        assert(value@.subrange(0, n as int) =~= value@);
        assert(views_of(tokens@) + spec_tok_lines(spec_lines(value@), true)
            =~= spec_tokenize_header(value@));
    }
    loop
        invariant_except_break
            views_of(tokens@) + spec_tok_lines(
                spec_lines(value@.subrange(pos as int, n as int)),
                first,
            ) =~= spec_tokenize_header(value@),
        invariant
            pos <= n,
            n == value@.len(),
        ensures
            views_of(tokens@) =~= spec_tokenize_header(value@),
        decreases n - pos,
    {
        let ghost rem = value@.subrange(pos as int, n as int);
        if pos == n {
            proof {
                assert(rem.len() == 0);
                assert(spec_tok_lines(spec_lines(rem), first) =~= Seq::<TokenView>::empty());
            }
            break;
        }
        proof {
            reveal_strlit("\n");
            assert("\n"@ =~= seq!['\n']);
            crate::lemma_find_from_shift(value@, pos as int, n as int, seq!['\n']);
            lemma_find_from(value@, pos as int, seq!['\n']);
            lemma_find_from(rem, 0, seq!['\n']);
        }
        let mut line_end: usize;
        let next_pos: usize;
        match find_from(value, pos, "\n") {
            Some(i) => {
                line_end = i;
                next_pos = i + 1;
            },
            None => {
                line_end = n;
                next_pos = n;
            },
        }
        let ghost raw_line = if next_pos < n || next_pos != line_end {
            spec_strip_cr(rem.subrange(0, line_end - pos))
        } else {
            rem
        };
        // one trailing carriage return goes with the line feed
        if next_pos != line_end {
            proof {
                assert(rem.subrange(0, line_end - pos) =~= value@.subrange(
                    pos as int,
                    line_end as int,
                ));
            }
            if line_end > pos && value.get_char(line_end - 1) == '\r' {
                line_end = line_end - 1;
            }
            proof {
                assert(raw_line =~= value@.subrange(pos as int, line_end as int));
            }
        } else {
            proof {
                assert(raw_line =~= value@.subrange(pos as int, line_end as int));
            }
        }
        let line = value.substring_char(pos, line_end);
        let trimmed = trim_start_str(line);
        let ghost pre = tokens@;
        if !first {
            tokens.push(HeaderToken::Newline(None));
            proof {
                assert(views_of(tokens@) =~= views_of(pre) + seq![
                    TokenView::Newline(None::<Seq<char>>),
                ]);
            }
        }
        let ghost with_nl = tokens@;
        let mut line_tokens = tokenize_header_line(trimmed);
        tokens.append(&mut line_tokens);
        proof {
            assert(views_of(tokens@) =~= views_of(with_nl) + spec_tokenize_line_from(
                spec_trim_start(raw_line),
                0,
            ));
            let ls = spec_lines(rem);
            if next_pos != line_end {
                assert(rem.subrange(next_pos - pos, rem.len() as int) =~= value@.subrange(
                    next_pos as int,
                    n as int,
                ));
            } else {
                assert(value@.subrange(next_pos as int, n as int).len() == 0);
                assert(spec_lines(value@.subrange(next_pos as int, n as int))
                    =~= Seq::<Seq<char>>::empty());
            }
            assert(ls.len() > 0 && ls[0] == raw_line);
            assert(ls.drop_first() =~= spec_lines(value@.subrange(next_pos as int, n as int)));
            assert(views_of(tokens@) + spec_tok_lines(
                spec_lines(value@.subrange(next_pos as int, n as int)),
                false,
            ) =~= spec_tokenize_header(value@));
        }
        pos = next_pos;
        first = false;
    }
    tokens
}


/// The view of the look-back slot.
pub open spec fn opt_view<'a>(o: Option<HeaderToken<'a>>) -> Option<TokenView> {
    match o {
        Some(t) => Some(t@),
        None => None,
    }
}

/// One step of the whitespace normalizer: from the pending slot and the next
/// fragment to the new pending slot and the fragments emitted.
pub open spec fn spec_norm_step(saved: Option<TokenView>, t: TokenView) -> (
    Option<TokenView>,
    Seq<TokenView>,
) {
    match t {
        TokenView::Text(_) => (
            None,
            match saved {
                Some(TokenView::Whitespace(w)) => seq![TokenView::Whitespace(w), t],
                Some(TokenView::Newline(Some(x))) => seq![TokenView::Newline(Some(x)), t],
                _ => seq![t],
            },
        ),
        TokenView::Whitespace(_) => match saved {
            Some(TokenView::DecodedWord(_)) => (Some(t), Seq::empty()),
            _ => (None, seq![t]),
        },
        TokenView::Newline(_) => match saved {
            Some(TokenView::Whitespace(w)) => (
                Some(TokenView::Newline(Some(w + seq![' ']))),
                Seq::empty(),
            ),
            Some(TokenView::DecodedWord(_)) => (
                Some(TokenView::Newline(Some(seq![' ']))),
                Seq::empty(),
            ),
            _ => (None, seq![TokenView::Newline(Some(seq![' ']))]),
        },
        TokenView::DecodedWord(_) => (
            Some(TokenView::DecodedWord(Seq::empty())),
            seq![t],
        ),
    }
}

/// The normalized form of `toks` given the pending slot `saved`; whatever is
/// still pending when the input ends is dropped.
pub open spec fn spec_normalize_from(toks: Seq<TokenView>, saved: Option<TokenView>) -> Seq<
    TokenView,
>
    decreases toks.len(),
{
    if toks.len() == 0 {
        Seq::empty()
    } else {
        let step = spec_norm_step(saved, toks[0]);
        step.1 + spec_normalize_from(toks.drop_first(), step.0)
    }
}

/// The fragment sequence with the folding-whitespace rule applied: whitespace
/// and folds strictly between two decoded words vanish, folds beside plain
/// text become a single space, and a fold or whitespace pending at the very
/// end after a decoded word is dropped.
pub open spec fn spec_normalize(toks: Seq<TokenView>) -> Seq<TokenView> {
    spec_normalize_from(toks, None)
}

/// Applies the one-slot look-back whitespace normalization to a fragment
/// sequence.
#[verifier::rlimit(50)]
pub fn normalize_header_whitespace(tokens: Vec<HeaderToken>) -> (r: Vec<HeaderToken>)
    ensures
        views_of(r@) == spec_normalize(views_of(tokens@)),
{
    let ghost all = views_of(tokens@);
    let mut tokens = tokens;
    let mut result: Vec<HeaderToken> = Vec::new();
    let mut saved_token: Option<HeaderToken> = None;
    proof {
        assert(views_of(result@) + spec_normalize_from(views_of(tokens@), opt_view(saved_token))
            =~= spec_normalize(all));
    }
    loop
        invariant_except_break
            views_of(result@) + spec_normalize_from(views_of(tokens@), opt_view(saved_token))
                =~= spec_normalize(all),
        ensures
            views_of(result@) =~= spec_normalize(all),
        decreases tokens@.len(),
    {
        if tokens.len() == 0 {
            break;
        }
        let ghost toks_pre = views_of(tokens@);
        let ghost sv_pre = opt_view(saved_token);
        let ghost res_pre = views_of(result@);
        let ghost step = spec_norm_step(sv_pre, toks_pre[0]);
        let tok = tokens.remove(0);
        proof {
            assert(tok@ == toks_pre[0]);
            assert(views_of(tokens@) =~= toks_pre.drop_first());
        }
        match &tok {
            HeaderToken::Text(_) => {
                let flush = match &saved_token {
                    Some(HeaderToken::Whitespace(_)) => true,
                    Some(HeaderToken::Newline(Some(_))) => true,
                    _ => false,
                };
                if flush {
                    let pending = saved_token.unwrap();
                    let ghost pv = pending@;
                    result.push(pending);
                    result.push(tok);
                    proof {
                        assert(step.1 =~= seq![pv, toks_pre[0]]);
                        assert(views_of(result@) =~= res_pre + step.1);
                    }
                } else {
                    result.push(tok);
                    proof {
                        assert(step.1 =~= seq![toks_pre[0]]);
                        assert(views_of(result@) =~= res_pre + step.1);
                    }
                }
                saved_token = None;
                proof {
                    assert(opt_view(saved_token) == step.0);
                }
            },
            HeaderToken::Whitespace(_) => {
                let was_word = match &saved_token {
                    Some(HeaderToken::DecodedWord(_)) => true,
                    _ => false,
                };
                if was_word {
                    saved_token = Some(tok);
                    proof {
                        assert(views_of(result@) =~= res_pre + step.1);
                        assert(opt_view(saved_token) == step.0);
                    }
                } else {
                    result.push(tok);
                    saved_token = None;
                    proof {
                        assert(step.1 =~= seq![toks_pre[0]]);
                        assert(views_of(result@) =~= res_pre + step.1);
                        assert(opt_view(saved_token) == step.0);
                    }
                }
            },
            HeaderToken::Newline(_) => {
                match saved_token {
                    Some(HeaderToken::Whitespace(ws)) => {
                        proof {
                            reveal_strlit(" ");
                            assert(" "@ =~= seq![' ']);
                        }
                        let new_ws = String::from_str(ws).concat(" ");
                        saved_token = Some(HeaderToken::Newline(Some(new_ws)));
                        proof {
                            assert(views_of(result@) =~= res_pre + step.1);
                            assert(opt_view(saved_token) == step.0);
                        }
                    },
                    Some(HeaderToken::DecodedWord(_)) => {
                        proof {
                            reveal_strlit(" ");
                            assert(" "@ =~= seq![' ']);
                        }
                        saved_token = Some(HeaderToken::Newline(Some(String::from_str(" "))));
                        proof {
                            assert(views_of(result@) =~= res_pre + step.1);
                            assert(opt_view(saved_token) == step.0);
                        }
                    },
                    _ => {
                        proof {
                            reveal_strlit(" ");
                            assert(" "@ =~= seq![' ']);
                        }
                        result.push(HeaderToken::Newline(Some(String::from_str(" "))));
                        saved_token = None;
                        proof {
                            assert(step.1 =~= seq![
                                TokenView::Newline(Some(seq![' '])),
                            ]);
                            assert(views_of(result@) =~= res_pre + step.1);
                            assert(opt_view(saved_token) == step.0);
                        }
                    },
                }
            },
            HeaderToken::DecodedWord(_) => {
                saved_token = Some(HeaderToken::DecodedWord(String::new()));
                result.push(tok);
                proof {
                    assert(step.1 =~= seq![toks_pre[0]]);
                    assert(views_of(result@) =~= res_pre + step.1);
                    assert(opt_view(saved_token) == step.0);
                }
            },
        }
        proof {
            assert(views_of(result@) =~= res_pre + step.1);
            assert(opt_view(saved_token) == step.0);
            assert(views_of(result@) + spec_normalize_from(views_of(tokens@), opt_view(saved_token))
                =~= spec_normalize(all));
        }
    }
    result
}

/// The normalized fragments of a raw header value: the folded multi-line
/// value tokenized, decoded, and its whitespace collapsed around decoded
/// words.
pub fn normalized_tokens(raw_value: &str) -> (r: Vec<HeaderToken>)
    ensures
        views_of(r@) == spec_normalize(spec_tokenize_header(raw_value@)),
{
    normalize_header_whitespace(tokenize_header(raw_value))
}


/// The textual content one fragment contributes when a consumer
/// concatenates a fragment sequence: a line-break marker contributes its
/// collapsed value, or nothing while that value is unset.
pub open spec fn spec_token_text(t: TokenView) -> Seq<char> {
    match t {
        TokenView::Text(s) => s,
        TokenView::Whitespace(s) => s,
        TokenView::Newline(o) => match o {
            Some(x) => x,
            None => Seq::empty(),
        },
        TokenView::DecodedWord(s) => s,
    }
}

/// The concatenated textual content of a fragment sequence.
pub open spec fn spec_concat(toks: Seq<TokenView>) -> Seq<char>
    decreases toks.len(),
{
    if toks.len() == 0 {
        Seq::empty()
    } else {
        spec_token_text(toks[0]) + spec_concat(toks.drop_first())
    }
}

/// Concatenated content splits over sequence concatenation.
pub proof fn lemma_concat_app(xs: Seq<TokenView>, ys: Seq<TokenView>)
    ensures
        spec_concat(xs + ys) == spec_concat(xs) + spec_concat(ys),
    decreases xs.len(),
{
    if xs.len() == 0 {
        assert(xs + ys =~= ys);
        assert(spec_concat(xs) + spec_concat(ys) =~= spec_concat(ys));
    } else {
        assert((xs + ys).drop_first() =~= xs.drop_first() + ys);
        lemma_concat_app(xs.drop_first(), ys);
        assert(spec_token_text(xs[0]) + (spec_concat(xs.drop_first()) + spec_concat(ys))
            =~= (spec_token_text(xs[0]) + spec_concat(xs.drop_first())) + spec_concat(ys));
    }
}

/// What normalization does to a fragment that is not a decoded word while
/// nothing is pending: a line-break marker gains the single-space collapsed
/// value, everything else passes through.
pub open spec fn spec_plain_norm(t: TokenView) -> TokenView {
    match t {
        TokenView::Newline(_) => TokenView::Newline(Some(seq![' '])),
        _ => t,
    }
}

/// On a fragment sequence holding no decoded word, normalization is the
/// per-fragment map `spec_plain_norm`: nothing is deferred and nothing is
/// dropped.
pub proof fn lemma_norm_plain(ts: Seq<TokenView>)
    requires
        forall|i: int| 0 <= i < ts.len() ==> !(ts[i] is DecodedWord),
    ensures
        spec_normalize_from(ts, None) =~= Seq::new(ts.len(), |i: int| spec_plain_norm(ts[i])),
    decreases ts.len(),
{
    if ts.len() > 0 {
        lemma_norm_plain(ts.drop_first());
        assert(Seq::new(ts.len(), |i: int| spec_plain_norm(ts[i])).drop_first()
            =~= Seq::new(ts.drop_first().len(), |i: int| spec_plain_norm(ts.drop_first()[i])));
        assert(spec_normalize_from(ts, None)
            =~= Seq::new(ts.len(), |i: int| spec_plain_norm(ts[i])));
    }
}

/// The lines of the value joined by single spaces, each line's leading
/// folding whitespace stripped; `first` says whether the first given line
/// opens the value.
pub open spec fn spec_join_space(ls: Seq<Seq<char>>, first: bool) -> Seq<char>
    decreases ls.len(),
{
    if ls.len() == 0 {
        Seq::empty()
    } else {
        (if first {
            Seq::<char>::empty()
        } else {
            seq![' ']
        }) + spec_trim_start(ls[0]) + spec_join_space(ls.drop_first(), false)
    }
}

/// The logically intended text of a raw value that decoding leaves alone:
/// the input itself, with each line fold (the line terminator together with
/// the following line's leading whitespace) replaced by a single space.
pub open spec fn spec_unfolded_text(s: Seq<char>) -> Seq<char> {
    spec_join_space(spec_lines(s), true)
}

/// A value without any occurrence of `key` has none in any of its
/// subranges.
pub proof fn lemma_no_key_sub(x: Seq<char>, lo: int, hi: int, key: Seq<char>)
    requires
        0 <= lo <= hi <= x.len(),
        spec_find_from(x, 0, key) is None,
    ensures
        spec_find_from(x.subrange(lo, hi), 0, key) is None,
{
    lemma_find_from(x, 0, key);
    crate::lemma_find_from_shift(x, lo, hi, key);
    lemma_find_from(x, lo, key);
    match spec_find_from(x.subrange(lo, hi), 0, key) {
        Some(i) => {
            assert(false);
        },
        None => {},
    }
}

/// Stripping leading whitespace cannot create an occurrence of `key`.
pub proof fn lemma_trim_no_key(x: Seq<char>, key: Seq<char>)
    requires
        spec_find_from(x, 0, key) is None,
    ensures
        spec_find_from(spec_trim_start(x), 0, key) is None,
    decreases x.len(),
{
    if x.len() > 0 && is_unicode_space(x[0]) {
        lemma_no_key_sub(x, 1, x.len() as int, key);
        lemma_trim_no_key(x.subrange(1, x.len() as int), key);
    }
}

/// A value without an encoded-word opener has none in any of its lines,
/// even once the line's indentation is stripped.
pub proof fn lemma_lines_no_marker(s: Seq<char>)
    requires
        spec_find_from(s, 0, seq!['=', '?']) is None,
    ensures
        forall|i: int| 0 <= i < spec_lines(s).len() ==> spec_find_from(
            spec_trim_start(#[trigger] spec_lines(s)[i]),
            0,
            seq!['=', '?'],
        ) is None,
    decreases s.len(),
{
    let key = seq!['=', '?'];
    if s.len() == 0 {
    } else {
        match spec_find_from(s, 0, seq!['\n']) {
            None => {
                lemma_trim_no_key(s, key);
                assert(spec_lines(s) =~= seq![s]);
            },
            Some(i) => {
                lemma_find_from(s, 0, seq!['\n']);
                let head = s.subrange(0, i);
                let l0 = spec_strip_cr(head);
                let tail = s.subrange(i + 1, s.len() as int);
                lemma_no_key_sub(s, 0, i, key);
                if head.len() > 0 && head[head.len() - 1] == '\r' {
                    assert(l0 =~= s.subrange(0, i - 1));
                    lemma_no_key_sub(s, 0, i - 1, key);
                }
                lemma_trim_no_key(l0, key);
                lemma_no_key_sub(s, i + 1, s.len() as int, key);
                lemma_lines_no_marker(tail);
                assert(spec_lines(s) =~= seq![l0] + spec_lines(tail));
                assert forall|j: int| 0 <= j < spec_lines(s).len() implies spec_find_from(
                    spec_trim_start(#[trigger] spec_lines(s)[j]),
                    0,
                    key,
                ) is None by {
                    if j >= 1 {
                        assert(spec_lines(s)[j] == spec_lines(tail)[j - 1]);
                    }
                }
            },
        }
    }
}

/// For lines free of encoded-word openers, tokenizing and normalizing
/// yields no decoded word, and the concatenated content is the lines'
/// trimmed text joined by single spaces.
pub proof fn lemma_tok_lines_plain(ls: Seq<Seq<char>>, first: bool)
    requires
        forall|i: int| 0 <= i < ls.len() ==> spec_find_from(
            spec_trim_start(#[trigger] ls[i]),
            0,
            seq!['=', '?'],
        ) is None,
    ensures
        forall|i: int| 0 <= i < spec_tok_lines(ls, first).len() ==> !(#[trigger] spec_tok_lines(
            ls,
            first,
        )[i] is DecodedWord),
        spec_concat(spec_normalize_from(spec_tok_lines(ls, first), None)) == spec_join_space(
            ls,
            first,
        ),
    decreases ls.len(),
{
    reveal_with_fuel(spec_concat, 3);
    let key = seq!['=', '?'];
    if ls.len() == 0 {
    } else {
        let l0 = spec_trim_start(ls[0]);
        let pre: Seq<TokenView> = if first {
            Seq::empty()
        } else {
            seq![TokenView::Newline(None)]
        };
        let lt = spec_tokenize_line_from(l0, 0);
        assert(l0.subrange(0, l0.len() as int) =~= l0);
        assert(lt =~= seq![spec_text_or_space(l0)]);
        let rest = spec_tok_lines(ls.drop_first(), false);
        lemma_tok_lines_plain(ls.drop_first(), false);
        let ts = spec_tok_lines(ls, first);
        assert(ts == pre + lt + rest);
        assert forall|i: int| 0 <= i < ts.len() implies !(#[trigger] ts[i] is DecodedWord) by {
            if i < pre.len() + lt.len() {
            } else {
                assert(ts[i] == rest[i - pre.len() - lt.len()]);
            }
        }
        lemma_norm_plain(ts);
        lemma_norm_plain(rest);
        let mapped = Seq::new(ts.len(), |i: int| spec_plain_norm(ts[i]));
        let mapped_pre = Seq::new(pre.len(), |i: int| spec_plain_norm(pre[i]));
        let mapped_lt = Seq::new(lt.len(), |i: int| spec_plain_norm(lt[i]));
        let mapped_rest = Seq::new(rest.len(), |i: int| spec_plain_norm(rest[i]));
        assert(mapped =~= mapped_pre + mapped_lt + mapped_rest);
        lemma_concat_app(mapped_pre + mapped_lt, mapped_rest);
        lemma_concat_app(mapped_pre, mapped_lt);
        assert((mapped_pre + mapped_lt) + mapped_rest =~= mapped);
        if first {
            assert(mapped_pre =~= Seq::<TokenView>::empty());
            assert(spec_concat(mapped_pre) =~= Seq::<char>::empty());
        } else {
            assert(mapped_pre =~= seq![TokenView::Newline(Some(seq![' ']))]);
            assert(mapped_pre.drop_first() =~= Seq::<TokenView>::empty());
            assert(spec_concat(mapped_pre) =~= seq![' ']);
        }
        assert(mapped_lt =~= seq![spec_text_or_space(l0)]);
        assert(mapped_lt.drop_first() =~= Seq::<TokenView>::empty());
        assert(spec_concat(mapped_lt) =~= l0);
        assert(spec_concat(mapped_rest) == spec_join_space(ls.drop_first(), false));
        assert(spec_concat(spec_normalize_from(ts, None)) == spec_join_space(ls, first));
    }
}

/// Whether position `i` of `s` starts a line terminator: a line feed, or a
/// carriage return immediately followed by one.
pub open spec fn spec_fold_at(s: Seq<char>, i: int) -> bool {
    0 <= i < s.len() && (s[i] == '\n' || (s[i] == '\r' && i + 1 < s.len() && s[i + 1] == '\n'))
}

/// The indentation that follows a fold: the longest prefix of whitespace
/// characters none of which starts a line terminator of its own.
pub open spec fn spec_skip_indent(s: Seq<char>) -> Seq<char>
    decreases s.len(),
{
    if s.len() > 0 && is_unicode_space(s[0]) && !spec_fold_at(s, 0) {
        spec_skip_indent(s.drop_first())
    } else {
        s
    }
}

/// What remains after the indentation is a suffix of the whole.
pub proof fn lemma_skip_indent_len(s: Seq<char>)
    ensures
        spec_skip_indent(s).len() <= s.len(),
        spec_skip_indent(s) == s.subrange(
            s.len() - spec_skip_indent(s).len(),
            s.len() as int,
        ),
        spec_skip_indent(s).len() > 0 ==> !is_unicode_space(spec_skip_indent(s)[0])
            || spec_fold_at(spec_skip_indent(s), 0),
    decreases s.len(),
{
    if s.len() > 0 && is_unicode_space(s[0]) && !spec_fold_at(s, 0) {
        lemma_skip_indent_len(s.drop_first());
        let k = spec_skip_indent(s).len();
        assert(s.drop_first().subrange(s.drop_first().len() - k, s.drop_first().len() as int)
            =~= s.subrange(s.len() - k, s.len() as int));
    } else {
        assert(s.subrange(0, s.len() as int) =~= s);
    }
}

/// The input text with every fold collapsed: each line terminator, the
/// carriage return that may precede it, and the following indentation
/// together become one space; every other character stands verbatim.
pub open spec fn spec_fold_collapsed(s: Seq<char>) -> Seq<char>
    decreases s.len() via spec_fold_collapsed_decreases
{
    if s.len() == 0 {
        Seq::empty()
    } else if s[0] == '\n' {
        seq![' '] + spec_fold_collapsed(spec_skip_indent(s.subrange(1, s.len() as int)))
    } else if spec_fold_at(s, 0) {
        seq![' '] + spec_fold_collapsed(spec_skip_indent(s.subrange(2, s.len() as int)))
    } else {
        seq![s[0]] + spec_fold_collapsed(s.subrange(1, s.len() as int))
    }
}

#[via_fn]
proof fn spec_fold_collapsed_decreases(s: Seq<char>) {
    if s.len() > 0 {
        lemma_skip_indent_len(s.subrange(1, s.len() as int));
        if spec_fold_at(s, 0) && !(s[0] == '\n') {
            lemma_skip_indent_len(s.subrange(2, s.len() as int));
        }
    }
}

/// Collapsing a value that opens with a terminator-free line: the line
/// stands verbatim, except that at a following terminator the
/// terminator-bound carriage return, the fold and the indentation become one
/// space.
proof fn lemma_fold_line(l: Seq<char>, t: Seq<char>)
    requires
        spec_find_from(l, 0, seq!['\n']) is None,
        t.len() > 0 ==> t[0] == '\n',
    ensures
        spec_fold_collapsed(l + t) == if t.len() == 0 {
            l
        } else {
            spec_strip_cr(l) + seq![' '] + spec_fold_collapsed(
                spec_skip_indent(t.subrange(1, t.len() as int)),
            )
        },
    decreases l.len(),
{
    lemma_find_from(l, 0, seq!['\n']);
    let w = l + t;
    if l.len() == 0 {
        assert(w =~= t);
        if t.len() == 0 {
            assert(spec_fold_collapsed(w) =~= l);
        } else {
            assert(spec_strip_cr(l) + seq![' '] + spec_fold_collapsed(
                spec_skip_indent(t.subrange(1, t.len() as int)),
            ) =~= seq![' '] + spec_fold_collapsed(spec_skip_indent(t.subrange(1, t.len() as int))));
        }
    } else {
        let c = l[0];
        assert(c != '\n') by {
            if c == '\n' {
                assert(spec_key_at(l, 0, seq!['\n']));
            }
        }
        if l.len() == 1 && c == '\r' && t.len() > 0 {
            assert(spec_fold_at(w, 0));
            assert(w.subrange(2, w.len() as int) =~= t.subrange(1, t.len() as int));
            assert(spec_strip_cr(l) =~= Seq::<char>::empty());
            assert(spec_strip_cr(l) + seq![' '] + spec_fold_collapsed(
                spec_skip_indent(t.subrange(1, t.len() as int)),
            ) =~= seq![' '] + spec_fold_collapsed(spec_skip_indent(t.subrange(1, t.len() as int))));
        } else {
            assert(!spec_fold_at(w, 0)) by {
                if w[0] == '\r' && 1 < w.len() && w[1] == '\n' {
                    if l.len() >= 2 {
                        assert(spec_key_at(l, 1, seq!['\n']));
                    }
                }
            }
            assert(w.subrange(1, w.len() as int) =~= l.drop_first() + t);
            lemma_no_key_sub(l, 1, l.len() as int, seq!['\n']);
            assert(l.drop_first() =~= l.subrange(1, l.len() as int));
            lemma_fold_line(l.drop_first(), t);
            if t.len() == 0 {
                assert(seq![c] + l.drop_first() =~= l);
            } else {
                assert(spec_strip_cr(l) =~= seq![c] + spec_strip_cr(l.drop_first()));
                assert(seq![c] + (spec_strip_cr(l.drop_first()) + seq![' ']
                    + spec_fold_collapsed(spec_skip_indent(t.subrange(1, t.len() as int))))
                    =~= spec_strip_cr(l) + seq![' '] + spec_fold_collapsed(
                    spec_skip_indent(t.subrange(1, t.len() as int)),
                ));
            }
        }
    }
}

/// Skipping a fold's indentation and then splitting into lines is splitting
/// into lines and trimming the first: the indentation is exactly the first
/// line's leading whitespace.
proof fn lemma_skip_indent_lines(t: Seq<char>)
    requires
        t.len() > 0,
    ensures
        spec_trim_start(spec_lines(t)[0]) + spec_join_space(spec_lines(t).drop_first(), false)
            == spec_join_space(spec_lines(spec_skip_indent(t)), true),
    decreases t.len(),
{
    let c = t[0];
    if !(is_unicode_space(c) && !spec_fold_at(t, 0)) {
        assert(spec_skip_indent(t) == t);
        assert(spec_join_space(spec_lines(t), true) == spec_trim_start(spec_lines(t)[0])
            + spec_join_space(spec_lines(t).drop_first(), false));
    } else {
        let td = t.drop_first();
        assert(c != '\n');
        lemma_find_from(t, 0, seq!['\n']);
        lemma_find_from(td, 0, seq!['\n']);
        crate::lemma_find_from_shift(t, 1, t.len() as int, seq!['\n']);
        assert(td =~= t.subrange(1, t.len() as int));
        match spec_find_from(t, 0, seq!['\n']) {
            None => {
                assert(spec_lines(t) =~= seq![t]);
                if t.len() == 1 {
                    assert(spec_skip_indent(t) == spec_skip_indent(td));
                    assert(td.len() == 0);
                    assert(t.subrange(1, t.len() as int) =~= Seq::<char>::empty());
                    assert(spec_trim_start(Seq::<char>::empty()) =~= Seq::<char>::empty());
                    assert(spec_trim_start(t) =~= Seq::<char>::empty());
                    assert(spec_lines(t).drop_first() =~= Seq::<Seq<char>>::empty());
                } else {
                    match spec_find_from(td, 0, seq!['\n']) {
                        Some(j) => {
                            assert(spec_key_at(t, j + 1, seq!['\n']));
                            assert(false);
                        },
                        None => {},
                    }
                    lemma_skip_indent_lines(td);
                    assert(spec_lines(td) =~= seq![td]);
                    assert(spec_trim_start(t) == spec_trim_start(td));
                    assert(spec_lines(t).drop_first() =~= spec_lines(td).drop_first());
                }
            },
            Some(i) => {
                assert(spec_key_at(t, i, seq!['\n']));
                assert(t[i + 0] == seq!['\n'][0]);
                assert(i >= 1);
                assert(spec_key_at(td, i - 1, seq!['\n'])) by {
                    assert(td[i - 1 + 0] == t[i + 0]);
                }
                match spec_find_from(td, 0, seq!['\n']) {
                    None => {
                        assert(false);
                    },
                    Some(j) => {
                        assert(spec_key_at(t, j + 1, seq!['\n']));
                        assert(j == i - 1);
                    },
                }
                lemma_skip_indent_lines(td);
                let l0 = spec_strip_cr(t.subrange(0, i));
                let l0d = spec_strip_cr(td.subrange(0, i - 1));
                assert(l0.len() > 0 && l0[0] == c) by {
                    if i == 1 {
                        assert(t.subrange(0, 1) =~= seq![c]);
                        if c == '\r' {
                            assert(spec_fold_at(t, 0));
                        }
                    }
                }
                assert(l0d =~= l0.subrange(1, l0.len() as int)) by {
                    assert(td.subrange(0, i - 1) =~= t.subrange(0, i).subrange(1, i));
                }
                assert(spec_trim_start(l0) == spec_trim_start(l0d));
                assert(td.subrange(i - 1 + 1, td.len() as int) =~= t.subrange(
                    i + 1,
                    t.len() as int,
                ));
                assert(spec_lines(t) =~= seq![l0] + spec_lines(t.subrange(i + 1, t.len() as int)));
                assert(spec_lines(td) =~= seq![l0d] + spec_lines(
                    t.subrange(i + 1, t.len() as int),
                ));
                assert(spec_lines(t).drop_first() =~= spec_lines(td).drop_first());
                assert(spec_skip_indent(t) == spec_skip_indent(td));
            },
        }
    }
}

/// Splitting into lines, trimming continuation indentation and joining with
/// single spaces is the same as collapsing each fold in place, provided the
/// value neither opens with loose whitespace nor ends in an open fold.
#[verifier::rlimit(50)]
proof fn lemma_unfolded_is_fold_collapsed(s: Seq<char>)
    requires
        s.len() > 0 ==> (!is_unicode_space(s[0]) || spec_fold_at(s, 0)),
        s.len() > 0 ==> s[s.len() - 1] != '\n',
    ensures
        spec_unfolded_text(s) == spec_fold_collapsed(s),
    decreases s.len(),
{
    reveal_with_fuel(spec_join_space, 3);
    if s.len() == 0 {
    } else {
        lemma_find_from(s, 0, seq!['\n']);
        match spec_find_from(s, 0, seq!['\n']) {
            None => {
                assert(spec_lines(s) =~= seq![s]);
                assert(spec_lines(s).drop_first() =~= Seq::<Seq<char>>::empty());
                assert(!spec_fold_at(s, 0)) by {
                    if s[0] == '\n' {
                        assert(spec_key_at(s, 0, seq!['\n']));
                    }
                    if s[0] == '\r' && 1 < s.len() && s[1] == '\n' {
                        assert(spec_key_at(s, 1, seq!['\n']));
                    }
                }
                assert(spec_trim_start(s) == s);
                assert(spec_unfolded_text(s) =~= s);
                assert(s + Seq::<char>::empty() =~= s);
                lemma_fold_line(s, Seq::empty());
            },
            Some(i) => {
                assert(spec_key_at(s, i, seq!['\n']));
                assert(s[i + 0] == seq!['\n'][0]);
                let l0raw = s.subrange(0, i);
                let t = s.subrange(i, s.len() as int);
                let tail = s.subrange(i + 1, s.len() as int);
                assert(s =~= l0raw + t);
                assert(t[0] == '\n');
                assert(spec_find_from(l0raw, 0, seq!['\n']) is None) by {
                    lemma_find_from(l0raw, 0, seq!['\n']);
                    match spec_find_from(l0raw, 0, seq!['\n']) {
                        Some(j) => {
                            assert(spec_key_at(l0raw, j, seq!['\n']));
                            assert(spec_key_at(s, j, seq!['\n'])) by {
                                assert(s[j + 0] == l0raw[j + 0]);
                            }
                            assert(false);
                        },
                        None => {},
                    }
                }
                lemma_fold_line(l0raw, t);
                assert(t.subrange(1, t.len() as int) =~= tail);
                assert(i != s.len() - 1) by {
                    if i == s.len() - 1 {
                        assert(s[s.len() - 1] == '\n');
                    }
                }
                assert(tail.len() > 0);
                let tp = spec_skip_indent(tail);
                lemma_skip_indent_len(tail);
                assert(tp.len() > 0 ==> (!is_unicode_space(tp[0]) || spec_fold_at(tp, 0)));
                assert(tp.len() > 0 ==> tp[tp.len() - 1] != '\n') by {
                    if tp.len() > 0 {
                        assert(tp[tp.len() - 1] == tail[tail.len() - 1]);
                        assert(tail[tail.len() - 1] == s[s.len() - 1]);
                    }
                }
                lemma_unfolded_is_fold_collapsed(tp);
                lemma_skip_indent_lines(tail);
                let l0 = spec_strip_cr(l0raw);
                assert(spec_lines(s) =~= seq![l0] + spec_lines(tail));
                assert(spec_lines(s).drop_first() =~= spec_lines(tail));
                assert(spec_trim_start(l0) == l0) by {
                    if l0.len() > 0 {
                        assert(l0[0] == s[0]);
                        assert(!is_unicode_space(s[0]) || spec_fold_at(s, 0));
                        if spec_fold_at(s, 0) {
                            if s[0] == '\n' {
                                assert(i == 0) by {
                                    assert(spec_key_at(s, 0, seq!['\n']));
                                }
                                assert(l0raw.len() == 0);
                            } else {
                                assert(s[1] == '\n');
                                assert(i == 1) by {
                                    assert(spec_key_at(s, 1, seq!['\n']));
                                    if s[0] == '\n' {
                                        assert(spec_key_at(s, 0, seq!['\n']));
                                    }
                                }
                                assert(l0raw =~= seq![s[0]]);
                                assert(l0.len() == 0);
                            }
                        }
                    }
                }
                assert(spec_lines(tail).len() > 0);
                assert(spec_join_space(spec_lines(tail), false) == seq![' '] + spec_trim_start(
                    spec_lines(tail)[0],
                ) + spec_join_space(spec_lines(tail).drop_first(), false));
                assert(spec_unfolded_text(s) == spec_trim_start(l0) + spec_join_space(
                    spec_lines(tail),
                    false,
                ));
                assert(spec_join_space(spec_lines(tp), true) == spec_fold_collapsed(tp));
                assert(spec_unfolded_text(s) =~= l0 + seq![' '] + spec_fold_collapsed(tp));
                assert(spec_fold_collapsed(s) == l0 + seq![' '] + spec_fold_collapsed(tp));
            },
        }
    }
}

/// Idempotence on plain text, stated over the raw value: where no
/// encoded-word opener occurs, and the value neither opens with loose
/// whitespace nor ends in an open fold, the concatenated output is the
/// input verbatim with each fold collapsed to a single space.
pub proof fn lemma_plain_text_verbatim(s: Seq<char>)
    requires
        spec_find_from(s, 0, seq!['=', '?']) is None,
        s.len() > 0 ==> (!is_unicode_space(s[0]) || spec_fold_at(s, 0)),
        s.len() > 0 ==> s[s.len() - 1] != '\n',
    ensures
        spec_concat(spec_normalize(spec_tokenize_header(s))) == spec_fold_collapsed(s),
{
    lemma_plain_text_preserved(s);
    lemma_unfolded_is_fold_collapsed(s);
}

/// Idempotence on plain text: a value in which no encoded-word opener
/// occurs decodes to fragments holding no decoded word, and their
/// concatenated content is the input itself with each line fold replaced by
/// a single space (`spec_unfolded_text`).
pub proof fn lemma_plain_text_preserved(s: Seq<char>)
    requires
        spec_find_from(s, 0, seq!['=', '?']) is None,
    ensures
        forall|i: int| 0 <= i < spec_normalize(spec_tokenize_header(s)).len()
            ==> !(#[trigger] spec_normalize(spec_tokenize_header(s))[i] is DecodedWord),
        spec_concat(spec_normalize(spec_tokenize_header(s))) == spec_unfolded_text(s),
{
    lemma_lines_no_marker(s);
    lemma_tok_lines_plain(spec_lines(s), true);
    let ts = spec_tokenize_header(s);
    lemma_norm_plain(ts);
    let mapped = Seq::new(ts.len(), |i: int| spec_plain_norm(ts[i]));
    assert forall|i: int| 0 <= i < spec_normalize(ts).len() implies !(#[trigger] spec_normalize(
        ts,
    )[i] is DecodedWord) by {
        assert(spec_normalize(ts)[i] == mapped[i]);
        assert(!(ts[i] is DecodedWord));
    }
}

/// Idempotence on a single plain line: a value holding neither an
/// encoded-word opener nor a line break, and not opening with whitespace,
/// decodes to fragments whose concatenated content is the value itself,
/// verbatim.
pub proof fn lemma_single_plain_line_verbatim(s: Seq<char>)
    requires
        spec_find_from(s, 0, seq!['=', '?']) is None,
        spec_find_from(s, 0, seq!['\n']) is None,
        s.len() > 0 ==> !is_unicode_space(s[0]),
    ensures
        spec_concat(spec_normalize(spec_tokenize_header(s))) == s,
{
    reveal_with_fuel(spec_join_space, 3);
    lemma_plain_text_preserved(s);
    if s.len() == 0 {
        assert(spec_unfolded_text(s) =~= s);
    } else {
        assert(spec_lines(s) =~= seq![s]);
        assert(spec_trim_start(s) == s);
        assert(spec_lines(s).drop_first() =~= Seq::<Seq<char>>::empty());
        assert(spec_unfolded_text(s) =~= s);
    }
}

/// Whitespace or a fold standing alone between two decoded words is erased:
/// the two words come out adjacent.
pub proof fn lemma_interword_whitespace_collapses(a: Seq<char>, mid: TokenView, b: Seq<char>)
    requires
        mid is Whitespace || mid is Newline,
    ensures
        spec_normalize(
            seq![TokenView::DecodedWord(a), mid, TokenView::DecodedWord(b)],
        ) =~= seq![TokenView::DecodedWord(a), TokenView::DecodedWord(b)],
{
    reveal_with_fuel(spec_normalize_from, 5);
    let ts = seq![TokenView::DecodedWord(a), mid, TokenView::DecodedWord(b)];
    assert(ts.drop_first() =~= seq![mid, TokenView::DecodedWord(b)]);
    assert(ts.drop_first().drop_first() =~= seq![TokenView::DecodedWord(b)]);
    assert(ts.drop_first().drop_first().drop_first() =~= Seq::<TokenView>::empty());
}

/// Whitespace followed by a fold, standing together between two decoded
/// words, is erased whole: the pending whitespace merges into the pending
/// fold, and the second word discards both.
pub proof fn lemma_interword_whitespace_and_fold_collapse(a: Seq<char>, w: Seq<char>, b: Seq<char>)
    ensures
        spec_normalize(
            seq![
                TokenView::DecodedWord(a),
                TokenView::Whitespace(w),
                TokenView::Newline(None),
                TokenView::DecodedWord(b),
            ],
        ) =~= seq![TokenView::DecodedWord(a), TokenView::DecodedWord(b)],
{
    reveal_with_fuel(spec_normalize_from, 6);
    let ts = seq![
        TokenView::DecodedWord(a),
        TokenView::Whitespace(w),
        TokenView::Newline(None),
        TokenView::DecodedWord(b),
    ];
    assert(ts.drop_first() =~= seq![
        TokenView::Whitespace(w),
        TokenView::Newline(None),
        TokenView::DecodedWord(b),
    ]);
    assert(ts.drop_first().drop_first() =~= seq![
        TokenView::Newline(None),
        TokenView::DecodedWord(b),
    ]);
    assert(ts.drop_first().drop_first().drop_first() =~= seq![TokenView::DecodedWord(b)]);
    assert(ts.drop_first().drop_first().drop_first().drop_first() =~= Seq::<TokenView>::empty());
}

/// Two decoded words with nothing at all between them stay adjacent and
/// unchanged: zero-width adjacency behaves as collapsed whitespace does.
pub proof fn lemma_adjacent_words_unchanged(a: Seq<char>, b: Seq<char>)
    ensures
        spec_normalize(seq![TokenView::DecodedWord(a), TokenView::DecodedWord(b)])
            =~= seq![TokenView::DecodedWord(a), TokenView::DecodedWord(b)],
{
    reveal_with_fuel(spec_normalize_from, 4);
    let ts = seq![TokenView::DecodedWord(a), TokenView::DecodedWord(b)];
    assert(ts.drop_first() =~= seq![TokenView::DecodedWord(b)]);
    assert(ts.drop_first().drop_first() =~= Seq::<TokenView>::empty());
}

/// A fold between two plain-text fragments survives as exactly one space:
/// the marker keeps its place and carries the single-space value, so the
/// concatenated content is the two texts a single space apart.
pub proof fn lemma_fold_next_to_text_single_space(a: Seq<char>, b: Seq<char>)
    ensures
        spec_normalize(
            seq![TokenView::Text(a), TokenView::Newline(None), TokenView::Text(b)],
        ) =~= seq![
            TokenView::Text(a),
            TokenView::Newline(Some(seq![' '])),
            TokenView::Text(b),
        ],
        spec_concat(
            spec_normalize(seq![TokenView::Text(a), TokenView::Newline(None), TokenView::Text(b)]),
        ) =~= a + seq![' '] + b,
{
    reveal_with_fuel(spec_normalize_from, 5);
    reveal_with_fuel(spec_concat, 5);
    let ts = seq![TokenView::Text(a), TokenView::Newline(None), TokenView::Text(b)];
    assert(ts.drop_first() =~= seq![TokenView::Newline(None), TokenView::Text(b)]);
    assert(ts.drop_first().drop_first() =~= seq![TokenView::Text(b)]);
    assert(ts.drop_first().drop_first().drop_first() =~= Seq::<TokenView>::empty());
    let out = spec_normalize(ts);
    assert(out =~= seq![
        TokenView::Text(a),
        TokenView::Newline(Some(seq![' '])),
        TokenView::Text(b),
    ]);
    assert(out.drop_first() =~= seq![TokenView::Newline(Some(seq![' '])), TokenView::Text(b)]);
    assert(out.drop_first().drop_first() =~= seq![TokenView::Text(b)]);
    assert(out.drop_first().drop_first().drop_first() =~= Seq::<TokenView>::empty());
    assert(spec_concat(out) =~= a + seq![' '] + b);
}

} // verus!
