//! The response classifier: from the text received so far to its outcome.

use vstd::prelude::*;
use vstd::utf8::encode_utf8;
use crate::lexer::{
    chars_of, crlf_at, ends_with_crlf, find_crlf, header_end, is_first_crlf, is_whitespace,
    is_word, join_spaces, lemma_first_crlf_unique, lemma_joined_words_hold_plain_spaces,
    lemma_tokens_around_whitespace, lemma_tokens_of_joined_words, lemma_word_is_one_token,
    span_is, spans_of, tokenize, tokens, Span,
};
use crate::lines::{
    ends_with_end_block, is_line, join_crlf, lemma_one_line, lemma_several_lines, payload,
    text_of_lines,
};
use crate::number::{digits_of, is_digit, is_unsigned, parse_unsigned, unsigned_value};

verus! {

/// What a response turned out to be.
#[derive(Debug, PartialEq, Eq)]
pub enum ParsedResponse {
    /// The text is not a whole response yet.
    Incomplete,
    /// A plain acknowledgement, or a counter's new value.
    Okay,
    /// Nothing was found, or a condition on the stored entry failed.
    Miss,
    /// A value came back, whole and of the declared length.
    Hit,
    /// The server reported an error; the text is the whole response.
    Error(String),
    /// The server's version.
    Version(String),
    /// A recognised shape with a broken field or a payload that is too long.
    Invalid,
    /// No known shape.
    Unknown,
}

/// The mathematical value of a [`ParsedResponse`].
pub enum Outcome {
    Incomplete,
    Okay,
    Miss,
    Hit,
    Error(Seq<char>),
    Version(Seq<char>),
    Invalid,
    Unknown,
}

impl View for ParsedResponse {
    type V = Outcome;

    open spec fn view(&self) -> Outcome {
        match self {
            ParsedResponse::Incomplete => Outcome::Incomplete,
            ParsedResponse::Okay => Outcome::Okay,
            ParsedResponse::Miss => Outcome::Miss,
            ParsedResponse::Hit => Outcome::Hit,
            ParsedResponse::Error(m) => Outcome::Error(m@),
            ParsedResponse::Version(v) => Outcome::Version(v@),
            ParsedResponse::Invalid => Outcome::Invalid,
            ParsedResponse::Unknown => Outcome::Unknown,
        }
    }
}

/// The tokens that acknowledge a command.
pub open spec fn is_ack(t: Seq<char>) -> bool {
    t == "OK"@ || t == "STORED"@ || t == "DELETED"@
}

/// The tokens that report a miss or a failed condition.
pub open spec fn is_miss(t: Seq<char>) -> bool {
    t == "END"@ || t == "EXISTS"@ || t == "NOT_FOUND"@ || t == "NOT_STORED"@
}

/// The length of the payload in bytes of UTF-8.
pub open spec fn payload_len(s: Seq<char>, h: int) -> nat {
    if h + 2 <= s.len() - 7 {
        encode_utf8(payload(s, h)).len()
    } else {
        0
    }
}

/// The outcome of a response of one line with the tokens `toks`.
pub open spec fn single_line(s: Seq<char>, toks: Seq<Seq<char>>) -> Outcome {
    if toks.len() == 0 {
        Outcome::Unknown
    } else if toks.len() == 1 {
        let t = toks[0];
        if is_ack(t) {
            Outcome::Okay
        } else if is_miss(t) {
            Outcome::Miss
        } else if t == "VALUE"@ {
            Outcome::Incomplete
        } else if t == "ERROR"@ {
            Outcome::Error(s)
        } else if is_unsigned(t, u64::MAX as nat) {
            Outcome::Okay
        } else {
            Outcome::Unknown
        }
    } else {
        let t = toks[0];
        if t == "VALUE"@ {
            Outcome::Incomplete
        } else if t == "VERSION"@ {
            Outcome::Version(join_spaces(toks.skip(1)))
        } else if t == "CLIENT_ERROR"@ || t == "SERVER_ERROR"@ {
            Outcome::Error(s)
        } else {
            Outcome::Unknown
        }
    }
}

/// The outcome of a response of several lines whose first line is `h`
/// characters long and has the tokens `toks`.
pub open spec fn value_block(s: Seq<char>, h: int, toks: Seq<Seq<char>>) -> Outcome {
    if toks.len() == 0 || toks[0] != "VALUE"@ {
        Outcome::Unknown
    } else if toks.len() < 4 {
        Outcome::Incomplete
    } else if toks.len() >= 5 && !is_unsigned(toks[4], u64::MAX as nat) {
        Outcome::Invalid
    } else if !is_unsigned(toks[2], u32::MAX as nat) {
        Outcome::Invalid
    } else if !ends_with_end_block(s) {
        Outcome::Incomplete
    } else if !is_unsigned(toks[3], u64::MAX as nat) {
        Outcome::Invalid
    } else if payload_len(s, h) == unsigned_value(toks[3]) {
        Outcome::Hit
    } else if payload_len(s, h) > unsigned_value(toks[3]) {
        Outcome::Invalid
    } else {
        Outcome::Incomplete
    }
}

/// The outcome of the text `s`. A text that does not end on a line boundary
/// is incomplete; one whose first terminator is its last is a response of
/// one line; any other is read as a value block.
pub open spec fn classify(s: Seq<char>) -> Outcome {
    if !ends_with_crlf(s) {
        Outcome::Incomplete
    } else if header_end(s) + 2 == s.len() {
        single_line(s, tokens(s.take(header_end(s))))
    } else {
        value_block(s, header_end(s), tokens(s.take(header_end(s))))
    }
}

/// The tokens of `text` from the second on, joined by single spaces.
fn rejoin_tail(text: &str, toks: &Vec<Span>) -> (out: String)
    requires
        toks.len() >= 1,
        forall|k: int| 0 <= k < toks.len() ==> (#[trigger] toks[k]).within(text@.len() as int),
    ensures
        out@ == join_spaces(spans_of(text@, toks@).skip(1)),
{
    let ghost all = spans_of(text@, toks@);
    let mut out = String::new();
    let mut k: usize = 1;
    assert(all.subrange(1, 1) =~= Seq::<Seq<char>>::empty());
    while k < toks.len()
        invariant
            1 <= k <= toks.len(),
            all == spans_of(text@, toks@),
            forall|j: int| 0 <= j < toks.len() ==> (#[trigger] toks[j]).within(text@.len() as int),
            out@ == join_spaces(all.subrange(1, k as int)),
        decreases toks.len() - k,
    {
        let span = toks[k];
        assert(span.within(text@.len() as int));
        let word = text.substring_char(span.start, span.end);
        proof {
            reveal_strlit(" ");
            assert(" "@ =~= seq![' ']);
            assert(all.subrange(1, k + 1).drop_last() =~= all.subrange(1, k as int));
            assert(all.subrange(1, k + 1).last() == word@);
        }
        if k > 1 {
            out.append(" ");
        }
        out.append(word);
        proof {
            if k == 1 {
                assert(out@ =~= word@);
            }
        }
        k = k + 1;
    }
    assert(all.subrange(1, k as int) =~= all.skip(1));
    out
}

/// Classifies a response of one line. `chars` holds the characters of
/// `text`, `toks` the tokens of the line.
fn classify_line(text: &str, chars: &Vec<char>, toks: &Vec<Span>) -> (r: ParsedResponse)
    requires
        chars@ == text@,
        forall|k: int| 0 <= k < toks.len() ==> (#[trigger] toks[k]).within(chars.len() as int),
    ensures
        r@ == single_line(text@, spans_of(text@, toks@)),
{
    if toks.len() == 0 {
        return ParsedResponse::Unknown;
    }
    let first = toks[0];
    assert(first.within(chars.len() as int));
    assert(spans_of(text@, toks@)[0] == first.of(chars@));
    if toks.len() == 1 {
        if span_is(chars, first, "OK") || span_is(chars, first, "STORED") || span_is(
            chars,
            first,
            "DELETED",
        ) {
            ParsedResponse::Okay
        } else if span_is(chars, first, "END") || span_is(chars, first, "EXISTS") || span_is(
            chars,
            first,
            "NOT_FOUND",
        ) || span_is(chars, first, "NOT_STORED") {
            ParsedResponse::Miss
        } else if span_is(chars, first, "VALUE") {
            ParsedResponse::Incomplete
        } else if span_is(chars, first, "ERROR") {
            ParsedResponse::Error(text.to_owned())
        } else if parse_unsigned(chars, first, u64::MAX).is_some() {
            ParsedResponse::Okay
        } else {
            ParsedResponse::Unknown
        }
    } else {
        if span_is(chars, first, "VALUE") {
            ParsedResponse::Incomplete
        } else if span_is(chars, first, "VERSION") {
            ParsedResponse::Version(rejoin_tail(text, toks))
        } else if span_is(chars, first, "CLIENT_ERROR") || span_is(chars, first, "SERVER_ERROR") {
            ParsedResponse::Error(text.to_owned())
        } else {
            ParsedResponse::Unknown
        }
    }
}

/// Measures the payload of a value response in bytes.
fn measure_payload(text: &str, h: usize) -> (n: usize)
    requires
        h + 2 <= text@.len(),
    ensures
        n == payload_len(text@, h as int),
{
    let len: usize = text.unicode_len();
    if len >= 7 && h + 2 <= len - 7 {
        let body = text.substring_char(h + 2, len - 7);
        body.as_bytes().len()
    } else {
        0
    }
}

/// Classifies a response of several lines. `chars` holds the characters of
/// `text`, `h` is the length of the first line and `toks` are its tokens.
fn classify_block(text: &str, chars: &Vec<char>, h: usize, toks: &Vec<Span>) -> (r:
    ParsedResponse)
    requires
        chars@ == text@,
        h + 2 <= chars.len(),
        forall|k: int| 0 <= k < toks.len() ==> (#[trigger] toks[k]).within(chars.len() as int),
    ensures
        r@ == value_block(text@, h as int, spans_of(text@, toks@)),
{
    let ghost words = spans_of(text@, toks@);
    if toks.len() == 0 {
        return ParsedResponse::Unknown;
    }
    assert(toks[0].within(chars.len() as int));
    assert(words[0] == toks[0].of(chars@));
    if !span_is(chars, toks[0], "VALUE") {
        return ParsedResponse::Unknown;
    }
    if toks.len() < 4 {
        return ParsedResponse::Incomplete;
    }
    assert(toks[2].within(chars.len() as int));
    assert(toks[3].within(chars.len() as int));
    assert(words[2] == toks[2].of(chars@));
    assert(words[3] == toks[3].of(chars@));
    if toks.len() >= 5 {
        assert(toks[4].within(chars.len() as int));
        assert(words[4] == toks[4].of(chars@));
        if parse_unsigned(chars, toks[4], u64::MAX).is_none() {
            return ParsedResponse::Invalid;
        }
    }
    if parse_unsigned(chars, toks[2], 0xffff_ffff).is_none() {
        return ParsedResponse::Invalid;
    }
    let n: usize = chars.len();
    if n < 7 || !span_is(chars, Span { start: n - 7, end: n }, "\r\nEND\r\n") {
        return ParsedResponse::Incomplete;
    }
    match parse_unsigned(chars, toks[3], u64::MAX) {
        None => ParsedResponse::Invalid,
        Some(declared) => {
            let measured: u64 = measure_payload(text, h) as u64;
            if measured == declared {
                ParsedResponse::Hit
            } else if measured > declared {
                ParsedResponse::Invalid
            } else {
                ParsedResponse::Incomplete
            }
        },
    }
}

/// The text received so far for one request.
pub struct Response<'a> {
    pub response: &'a str,
}

/// What can be classified as a response.
pub trait Parse {
    fn parse(&self) -> ParsedResponse;
}

impl<'a> Parse for Response<'a> {
    /// Classifies the text. The outcome depends on the characters of the
    /// text and on nothing else.
    fn parse(&self) -> (r: ParsedResponse)
        ensures
            r@ == classify(self.response@),
    {
        let text = self.response;
        let chars = chars_of(text);
        let n: usize = chars.len();
        if n < 2 || chars[n - 2] != '\r' || chars[n - 1] != '\n' {
            return ParsedResponse::Incomplete;
        }
        let h = find_crlf(&chars);
        let toks = tokenize(&chars, h);
        assert(spans_of(text@, toks@) == tokens(text@.take(h as int)));
        if h + 2 == n {
            classify_line(text, &chars, &toks)
        } else {
            classify_block(text, &chars, h, &toks)
        }
    }
}

/// A text that does not end with the line terminator is incomplete; the
/// empty text is one of them.
pub proof fn lemma_unterminated_is_incomplete(s: Seq<char>)
    requires
        !ends_with_crlf(s),
    ensures
        classify(s) == Outcome::Incomplete,
{
}

/// Each acknowledgement marker followed by the terminator is an
/// acknowledgement; each miss marker followed by the terminator is a miss.
pub proof fn lemma_marker_outcomes(t: Seq<char>)
    ensures
        is_ack(t) ==> classify(t + "\r\n"@) == Outcome::Okay,
        is_miss(t) ==> classify(t + "\r\n"@) == Outcome::Miss,
{
    if is_ack(t) || is_miss(t) {
        reveal_strlit("OK");
        reveal_strlit("STORED");
        reveal_strlit("DELETED");
        reveal_strlit("END");
        reveal_strlit("EXISTS");
        reveal_strlit("NOT_FOUND");
        reveal_strlit("NOT_STORED");
        assert(is_word(t));
        assert(is_line(t)) by {
            assert forall|j: int| !crlf_at(t, j) by {
                if 0 <= j < t.len() {
                    assert(!is_whitespace(t[j]));
                }
            }
        }
        lemma_word_is_one_token(t);
        lemma_one_line(t);
        assert(seq![t][0] == t);
    }
}

/// A token that spells an unsigned 64-bit number, followed by the
/// terminator, is an acknowledgement.
pub proof fn lemma_number_reply(t: Seq<char>)
    requires
        is_unsigned(t, u64::MAX as nat),
    ensures
        classify(t + "\r\n"@) == Outcome::Okay,
{
    reveal_strlit("OK");
    reveal_strlit("STORED");
    reveal_strlit("DELETED");
    reveal_strlit("END");
    reveal_strlit("EXISTS");
    reveal_strlit("NOT_FOUND");
    reveal_strlit("NOT_STORED");
    reveal_strlit("VALUE");
    reveal_strlit("ERROR");
    let d = digits_of(t);
    assert forall|i: int| 0 <= i < t.len() implies !is_whitespace(#[trigger] t[i]) by {
        if t[0] == '+' {
            if i > 0 {
                assert(is_digit(d[i - 1]));
            }
        } else {
            assert(is_digit(d[i]));
        }
    }
    assert(is_line(t)) by {
        assert forall|j: int| !crlf_at(t, j) by {
            if 0 <= j < t.len() {
                assert(!is_whitespace(t[j]));
            }
        }
    }
    assert(t[0] == '+' || is_digit(t[0])) by {
        if t[0] != '+' {
            assert(is_digit(d[0]));
        }
    }
    lemma_word_is_one_token(t);
    lemma_one_line(t);
    assert(seq![t][0] == t);
    assert(!is_ack(t) && !is_miss(t) && t != "VALUE"@ && t != "ERROR"@) by {
        assert("OK"@[0] == 'O' && "STORED"@[0] == 'S' && "DELETED"@[0] == 'D' && "END"@[0] == 'E'
            && "EXISTS"@[0] == 'E' && "NOT_FOUND"@[0] == 'N' && "NOT_STORED"@[0] == 'N'
            && "VALUE"@[0] == 'V' && "ERROR"@[0] == 'E');
    }
}

/// Whether `header` can open a value block: it holds no line terminator,
/// its first token is the value marker and it has a key, flags and a
/// length.
pub open spec fn is_value_header(header: Seq<char>) -> bool {
    &&& forall|j: int| !crlf_at(header, j)
    &&& tokens(header).len() >= 4
    &&& tokens(header)[0] == "VALUE"@
}

/// Whether the flags of a value header are a 32-bit unsigned number and
/// its cas token, if it has one, is a 64-bit unsigned number.
pub open spec fn has_valid_flags_and_cas(header: Seq<char>) -> bool {
    &&& is_unsigned(tokens(header)[2], u32::MAX as nat)
    &&& tokens(header).len() >= 5 ==> is_unsigned(tokens(header)[4], u64::MAX as nat)
}

/// The text of a value block: the header, the payload and the closing
/// line, each followed by the terminator.
pub open spec fn value_text(header: Seq<char>, body: Seq<char>) -> Seq<char> {
    header + "\r\n"@ + body + "\r\nEND\r\n"@
}

/// In the text of a value block the header is the first line, the closing
/// line is in place and the payload is the body.
proof fn lemma_value_text_shape(header: Seq<char>, body: Seq<char>)
    requires
        forall|j: int| !crlf_at(header, j),
    ensures
        classify(value_text(header, body)) == value_block(
            value_text(header, body),
            header.len() as int,
            tokens(header),
        ),
        ends_with_end_block(value_text(header, body)),
        payload_len(value_text(header, body), header.len() as int) == encode_utf8(body).len(),
{
    reveal_strlit("\r\n");
    reveal_strlit("\r\nEND\r\n");
    let s = value_text(header, body);
    let h = header.len() as int;
    assert(s.len() == h + 2 + body.len() + 7);
    assert(is_first_crlf(s, h)) by {
        assert forall|j: int| 0 <= j < h implies !crlf_at(s, j) by {
            assert(!crlf_at(header, j));
            assert(s[j] == header[j]);
            if j + 1 < h {
                assert(s[j + 1] == header[j + 1]);
            }
        }
    }
    lemma_first_crlf_unique(s, h);
    assert(s.take(h) =~= header);
    assert(s.subrange(s.len() - 7, s.len() as int) =~= "\r\nEND\r\n"@);
    assert(payload(s, h) =~= body);
}

/// A value block with a well-formed header is a hit exactly when the
/// payload has the declared number of bytes. With fewer bytes, however
/// few, it is incomplete; with more, however many, it is invalid.
pub proof fn lemma_value_block_by_length(header: Seq<char>, body: Seq<char>)
    requires
        is_value_header(header),
        has_valid_flags_and_cas(header),
        is_unsigned(tokens(header)[3], u64::MAX as nat),
    ensures
        encode_utf8(body).len() == unsigned_value(tokens(header)[3]) ==> classify(
            value_text(header, body),
        ) == Outcome::Hit,
        encode_utf8(body).len() < unsigned_value(tokens(header)[3]) ==> classify(
            value_text(header, body),
        ) == Outcome::Incomplete,
        encode_utf8(body).len() > unsigned_value(tokens(header)[3]) ==> classify(
            value_text(header, body),
        ) == Outcome::Invalid,
{
    lemma_value_text_shape(header, body);
}

/// A value block whose length token is no unsigned number is invalid,
/// whatever its payload, flags and cas token are.
pub proof fn lemma_bad_length_is_invalid(header: Seq<char>, body: Seq<char>)
    requires
        is_value_header(header),
        !is_unsigned(tokens(header)[3], u64::MAX as nat),
    ensures
        classify(value_text(header, body)) == Outcome::Invalid,
{
    lemma_value_text_shape(header, body);
}

/// A text of several lines that ends on a line boundary and opens with a
/// value header whose flags are no 32-bit unsigned number is invalid,
/// whatever follows the header.
pub proof fn lemma_bad_flags_are_invalid(s: Seq<char>)
    requires
        ends_with_crlf(s),
        header_end(s) + 2 != s.len(),
        tokens(s.take(header_end(s))).len() >= 4,
        tokens(s.take(header_end(s)))[0] == "VALUE"@,
        !is_unsigned(tokens(s.take(header_end(s)))[2], u32::MAX as nat),
    ensures
        classify(s) == Outcome::Invalid,
{
}

/// An error reply of one line is reported with the whole text, terminator
/// included: the bare error marker, or a client or server error marker
/// followed by at least one more token.
pub proof fn lemma_error_keeps_text(s: Seq<char>)
    requires
        ends_with_crlf(s),
        header_end(s) + 2 == s.len(),
        ({
            let toks = tokens(s.take(header_end(s)));
            ||| toks == seq!["ERROR"@]
            ||| toks.len() >= 2 && (toks[0] == "CLIENT_ERROR"@ || toks[0] == "SERVER_ERROR"@)
        }),
    ensures
        classify(s) == Outcome::Error(s),
{
    reveal_strlit("ERROR");
    reveal_strlit("CLIENT_ERROR");
    reveal_strlit("SERVER_ERROR");
    reveal_strlit("VALUE");
    reveal_strlit("VERSION");
    reveal_strlit("OK");
    reveal_strlit("STORED");
    reveal_strlit("DELETED");
    reveal_strlit("END");
    reveal_strlit("EXISTS");
    reveal_strlit("NOT_FOUND");
    reveal_strlit("NOT_STORED");
    let toks = tokens(s.take(header_end(s)));
    if toks == seq!["ERROR"@] {
        assert(toks[0] == "ERROR"@);
        assert(!is_ack(toks[0]));
        assert(!is_miss(toks[0]));
        assert("ERROR"@[0] == 'E' && "VALUE"@[0] == 'V');
    } else {
        assert(toks[0].len() == 12);
    }
}

/// Classification has no hidden state: two outcomes computed for the same
/// text are equal.
pub proof fn lemma_same_text_same_outcome(
    a: Seq<char>,
    b: Seq<char>,
    first: ParsedResponse,
    second: ParsedResponse,
)
    requires
        a == b,
        first@ == classify(a),
        second@ == classify(b),
    ensures
        first@ == second@,
{
}

/// A response of one line is classified by the tokens of that line.
pub proof fn lemma_classify_one_line(line: Seq<char>)
    requires
        is_line(line),
    ensures
        classify(line + "\r\n"@) == single_line(line + "\r\n"@, tokens(line)),
{
    lemma_one_line(line);
}

/// A response of two or more lines is classified as a value block whose
/// header is the first line, whose closing line is the last and whose
/// payload is made of the lines between them.
pub proof fn lemma_classify_several_lines(lines: Seq<Seq<char>>)
    requires
        lines.len() >= 2,
        is_line(lines[0]),
        is_line(lines.last()),
    ensures
        classify(text_of_lines(lines)) == value_block(
            text_of_lines(lines),
            lines[0].len() as int,
            tokens(lines[0]),
        ),
        ends_with_end_block(text_of_lines(lines)) <==> lines.last() == "END"@,
        lines.last() == "END"@ ==> payload_len(text_of_lines(lines), lines[0].len() as int)
            == encode_utf8(join_crlf(lines.subrange(1, lines.len() - 1))).len(),
{
    lemma_several_lines(lines);
    assert(encode_utf8(Seq::<char>::empty()).len() == 0);
}

/// A line whose first token is the version marker and which has more
/// tokens is a version reply; the version is made of the tokens after the
/// marker, with one space between neighbours.
pub proof fn lemma_version_reply(line: Seq<char>)
    requires
        is_line(line),
        tokens(line).len() >= 2,
        tokens(line)[0] == "VERSION"@,
    ensures
        classify(line + "\r\n"@) == Outcome::Version(join_spaces(tokens(line).skip(1))),
{
    lemma_one_line(line);
    reveal_strlit("VERSION");
    reveal_strlit("VALUE");
    assert("VERSION"@.len() == 7 && "VALUE"@.len() == 5);
}

/// The version marker, a space and words with single spaces between them
/// give those words back, spaces included.
pub proof fn lemma_version_of_words(words: Seq<Seq<char>>)
    requires
        words.len() >= 1,
        forall|k: int| 0 <= k < words.len() ==> is_word(#[trigger] words[k]),
    ensures
        classify("VERSION "@ + join_spaces(words) + "\r\n"@) == Outcome::Version(
            join_spaces(words),
        ),
{
    reveal_strlit("VERSION ");
    reveal_strlit("VERSION");
    let version = join_spaces(words);
    let line = "VERSION "@ + version;
    assert(line =~= "VERSION"@ + seq![' '] + version);
    lemma_tokens_around_whitespace("VERSION"@, ' ', version);
    lemma_word_is_one_token("VERSION"@);
    lemma_tokens_of_joined_words(words);
    lemma_joined_words_hold_plain_spaces(words);
    assert(tokens(line) == seq!["VERSION"@] + words);
    assert(tokens(line).skip(1) =~= words);
    assert(is_line(line)) by {
        assert forall|j: int| !crlf_at(line, j) by {
            if 8 <= j < line.len() {
                assert(line[j] == version[j - 8]);
            }
        }
    }
    lemma_version_reply(line);
}

} // verus!
