//! Lexical structure of a response text: line terminators, whitespace and
//! tokens, stated over sequences of characters.

use vstd::prelude::*;

verus! {

/// Whether `c` has the Unicode property `White_Space`.
pub open spec fn is_whitespace(c: char) -> bool {
    let u = c as u32;
    ||| 0x09 <= u <= 0x0D
    ||| u == 0x20
    ||| u == 0x85
    ||| u == 0xA0
    ||| u == 0x1680
    ||| 0x2000 <= u <= 0x200A
    ||| u == 0x2028
    ||| u == 0x2029
    ||| u == 0x202F
    ||| u == 0x205F
    ||| u == 0x3000
}

/// Whether a line terminator (carriage return, line feed) starts at `i`.
pub open spec fn crlf_at(s: Seq<char>, i: int) -> bool {
    &&& 0 <= i
    &&& i + 1 < s.len()
    &&& s[i] == '\r'
    &&& s[i + 1] == '\n'
}

/// Whether the text ends on a line boundary.
pub open spec fn ends_with_crlf(s: Seq<char>) -> bool {
    crlf_at(s, s.len() - 2)
}

/// Whether `h` is where the first line terminator of the text starts.
pub open spec fn is_first_crlf(s: Seq<char>, h: int) -> bool {
    &&& crlf_at(s, h)
    &&& forall|j: int| 0 <= j < h ==> !crlf_at(s, j)
}

/// Length of the first line: where the first line terminator starts.
/// Meaningful for a text that holds a terminator.
pub open spec fn header_end(s: Seq<char>) -> int {
    choose|h: int| is_first_crlf(s, h)
}

/// The whitespace-separated tokens of a text, in order: the maximal runs of
/// characters that are not whitespace. A character that follows another
/// token character extends the last token; one that follows whitespace, or
/// that opens the text, begins a new token.
pub open spec fn tokens(s: Seq<char>) -> Seq<Seq<char>>
    decreases s.len(),
{
    if s.len() == 0 {
        Seq::empty()
    } else {
        let before = tokens(s.drop_last());
        let c = s.last();
        if is_whitespace(c) {
            before
        } else if s.len() >= 2 && !is_whitespace(s[s.len() - 2]) {
            before.drop_last().push(before.last().push(c))
        } else {
            before.push(seq![c])
        }
    }
}

/// The tokens joined again, one space between neighbours.
pub open spec fn join_spaces(toks: Seq<Seq<char>>) -> Seq<char>
    decreases toks.len(),
{
    if toks.len() == 0 {
        Seq::empty()
    } else if toks.len() == 1 {
        toks[0]
    } else {
        join_spaces(toks.drop_last()) + seq![' '] + toks.last()
    }
}

/// A half-open range of character positions.
#[derive(Clone, Copy, Debug, PartialEq, Eq, Structural)]
pub struct Span {
    pub start: usize,
    pub end: usize,
}

impl Span {
    /// The characters of `s` that the span covers.
    pub open spec fn of(self, s: Seq<char>) -> Seq<char> {
        s.subrange(self.start as int, self.end as int)
    }

    /// Whether the span is non-empty and lies within the first `limit`
    /// positions.
    pub open spec fn within(self, limit: int) -> bool {
        self.start < self.end <= limit
    }
}

/// The texts that a list of spans covers.
pub open spec fn spans_of(s: Seq<char>, spans: Seq<Span>) -> Seq<Seq<char>> {
    Seq::new(spans.len(), |k: int| spans[k].of(s))
}

/// The first line terminator is unique.
pub proof fn lemma_first_crlf_unique(s: Seq<char>, h: int)
    requires
        is_first_crlf(s, h),
    ensures
        header_end(s) == h,
{
    let g = header_end(s);
    assert(is_first_crlf(s, g));
    if g < h {
        assert(!crlf_at(s, g));
    }
    if h < g {
        assert(!crlf_at(s, h));
    }
}

/// A non-empty text without whitespace is one token: itself.
pub proof fn lemma_word_is_one_token(t: Seq<char>)
    requires
        t.len() > 0,
        forall|i: int| 0 <= i < t.len() ==> !is_whitespace(#[trigger] t[i]),
    ensures
        tokens(t) == seq![t],
    decreases t.len(),
{
    let front = t.drop_last();
    if t.len() == 1 {
        assert(front.len() == 0);
        assert(tokens(front) =~= Seq::<Seq<char>>::empty());
        assert(seq![t.last()] =~= t);
        assert(tokens(t) == tokens(front).push(seq![t.last()]));
        assert(tokens(t) =~= seq![t]);
    } else {
        lemma_word_is_one_token(front);
        assert(!is_whitespace(t[t.len() - 2]));
        assert(tokens(t) == tokens(front).drop_last().push(tokens(front).last().push(t.last())));
        assert(front.push(t.last()) =~= t);
        assert(seq![front].drop_last() =~= Seq::<Seq<char>>::empty());
        assert(tokens(t) =~= seq![t]);
    }
}

/// A text that ends with a token character has a token.
pub proof fn lemma_open_token(s: Seq<char>)
    requires
        s.len() > 0,
        !is_whitespace(s.last()),
    ensures
        tokens(s).len() > 0,
    decreases s.len(),
{
    if s.len() >= 2 && !is_whitespace(s[s.len() - 2]) {
        lemma_open_token(s.drop_last());
    }
}

/// Whitespace separates: the tokens of two texts with a whitespace
/// character between them are the tokens of the first, then those of the
/// second.
pub proof fn lemma_tokens_around_whitespace(a: Seq<char>, c: char, b: Seq<char>)
    requires
        is_whitespace(c),
    ensures
        tokens(a + seq![c] + b) == tokens(a) + tokens(b),
    decreases b.len(),
{
    let s = a + seq![c] + b;
    if b.len() == 0 {
        assert(s.drop_last() =~= a);
        assert(tokens(b) =~= Seq::<Seq<char>>::empty());
        assert(tokens(s) =~= tokens(a) + tokens(b));
    } else {
        let front = b.drop_last();
        lemma_tokens_around_whitespace(a, c, front);
        assert(s.drop_last() =~= a + seq![c] + front);
        assert(s.last() == b.last());
        if !is_whitespace(b.last()) {
            if b.len() >= 2 {
                assert(s[s.len() - 2] == b[b.len() - 2]);
                if !is_whitespace(b[b.len() - 2]) {
                    lemma_open_token(front);
                }
            } else {
                assert(s[s.len() - 2] == c);
                assert(tokens(front) =~= Seq::<Seq<char>>::empty());
            }
        }
        assert(tokens(s) =~= tokens(a) + tokens(b));
    }
}

/// Whether a text can be a token: it is not empty and holds no
/// whitespace.
pub open spec fn is_word(t: Seq<char>) -> bool {
    t.len() > 0 && forall|i: int| 0 <= i < t.len() ==> !is_whitespace(#[trigger] t[i])
}

/// Words joined by single spaces hold no whitespace but those spaces.
pub proof fn lemma_joined_words_hold_plain_spaces(words: Seq<Seq<char>>)
    requires
        forall|k: int| 0 <= k < words.len() ==> is_word(#[trigger] words[k]),
    ensures
        forall|i: int|
            0 <= i < join_spaces(words).len() ==> {
                let c = #[trigger] join_spaces(words)[i];
                c == ' ' || !is_whitespace(c)
            },
    decreases words.len(),
{
    if words.len() == 1 {
        assert(is_word(words[0]));
    } else if words.len() > 1 {
        let front = words.drop_last();
        lemma_joined_words_hold_plain_spaces(front);
        assert(is_word(words.last()));
        let joined = join_spaces(words);
        let left = join_spaces(front);
        assert forall|i: int| 0 <= i < joined.len() implies {
            let c = #[trigger] joined[i];
            c == ' ' || !is_whitespace(c)
        } by {
            if i < left.len() {
                assert(joined[i] == left[i]);
            } else if i > left.len() {
                assert(joined[i] == words.last()[i - left.len() - 1]);
            }
        }
    }
}

/// Joining words by single spaces and splitting the text into tokens
/// gives the words back.
pub proof fn lemma_tokens_of_joined_words(words: Seq<Seq<char>>)
    requires
        forall|k: int| 0 <= k < words.len() ==> is_word(#[trigger] words[k]),
    ensures
        tokens(join_spaces(words)) == words,
    decreases words.len(),
{
    if words.len() == 0 {
        assert(tokens(join_spaces(words)) =~= words);
    } else if words.len() == 1 {
        assert(is_word(words[0]));
        lemma_word_is_one_token(words[0]);
        assert(seq![words[0]] =~= words);
    } else {
        let front = words.drop_last();
        lemma_tokens_of_joined_words(front);
        assert(is_word(words.last()));
        lemma_word_is_one_token(words.last());
        lemma_tokens_around_whitespace(join_spaces(front), ' ', words.last());
        assert(front + seq![words.last()] =~= words);
    }
}

/// Tells whether `c` is a whitespace character.
pub fn char_is_whitespace(c: char) -> (r: bool)
    ensures
        r == is_whitespace(c),
{
    let u: u32 = c as u32;
    (0x09 <= u && u <= 0x0D) || u == 0x20 || u == 0x85 || u == 0xA0 || u == 0x1680 || (0x2000 <= u
        && u <= 0x200A) || u == 0x2028 || u == 0x2029 || u == 0x202F || u == 0x205F || u == 0x3000
}

/// The characters of a string, in order.
pub fn chars_of(text: &str) -> (out: Vec<char>)
    ensures
        out@ == text@,
{
    let mut out: Vec<char> = Vec::new();
    for c in it: text.chars()
        invariant
            it.seq() == text@,
            out@ == it.seq().take(it.index()),
    {
        out.push(c);
        assert(out@ =~= it.seq().take(it.index() + 1));
    }
    assert(out@ =~= text@);
    out
}

/// Finds the first line terminator of a text that ends with one.
pub fn find_crlf(chars: &Vec<char>) -> (h: usize)
    requires
        ends_with_crlf(chars@),
    ensures
        is_first_crlf(chars@, h as int),
        h == header_end(chars@),
        h + 2 <= chars.len(),
{
    let mut i: usize = 0;
    while !(chars[i] == '\r' && chars[i + 1] == '\n')
        invariant
            ends_with_crlf(chars@),
            i + 2 <= chars.len(),
            forall|j: int| 0 <= j < i ==> !crlf_at(chars@, j),
        decreases chars.len() - i,
    {
        i = i + 1;
    }
    proof {
        lemma_first_crlf_unique(chars@, i as int);
    }
    i
}

/// Splits the first `end` characters into their tokens.
pub fn tokenize(chars: &Vec<char>, end: usize) -> (out: Vec<Span>)
    requires
        end <= chars.len(),
    ensures
        spans_of(chars@, out@) == tokens(chars@.take(end as int)),
        forall|k: int| 0 <= k < out.len() ==> (#[trigger] out[k]).within(end as int),
{
    let mut out: Vec<Span> = Vec::new();
    let mut start: usize = 0;
    let mut open: bool = false;
    let mut i: usize = 0;
    assert(spans_of(chars@, out@) =~= tokens(chars@.take(0)));
    while i < end
        invariant
            i <= end <= chars.len(),
            open == (i > 0 && !is_whitespace(chars@[i - 1])),
            open ==> start < i,
            tokens(chars@.take(i as int)) == if open {
                spans_of(chars@, out@).push(chars@.subrange(start as int, i as int))
            } else {
                spans_of(chars@, out@)
            },
            forall|k: int| 0 <= k < out.len() ==> (#[trigger] out[k]).within(i as int),
        decreases end - i,
    {
        let ghost s = chars@;
        let ghost done = spans_of(s, out@);
        let c = chars[i];
        proof {
            assert(s.take(i + 1).drop_last() =~= s.take(i as int));
            assert(s.take(i + 1).last() == c);
        }
        if char_is_whitespace(c) {
            if open {
                out.push(Span { start, end: i });
                assert(spans_of(s, out@) =~= done.push(s.subrange(start as int, i as int)));
            }
            open = false;
        } else {
            if open {
                proof {
                    let before = done.push(s.subrange(start as int, i as int));
                    assert(before.drop_last() =~= done);
                    assert(before.last().push(c) =~= s.subrange(start as int, i + 1));
                }
            } else {
                start = i;
                assert(seq![c] =~= s.subrange(i as int, i + 1));
            }
            open = true;
        }
        i = i + 1;
    }
    if open {
        let ghost done = spans_of(chars@, out@);
        out.push(Span { start, end });
        assert(spans_of(chars@, out@) =~= done.push(chars@.subrange(start as int, end as int)));
    }
    out
}

/// Tells whether the characters that `span` covers spell `word`.
pub fn span_is(chars: &Vec<char>, span: Span, word: &str) -> (r: bool)
    requires
        span.start <= span.end <= chars.len(),
    ensures
        r == (span.of(chars@) == word@),
{
    let n: usize = word.unicode_len();
    if span.end - span.start != n {
        return false;
    }
    let mut k: usize = 0;
    while k < n
        invariant
            n == word@.len(),
            span.end - span.start == n,
            span.end <= chars.len(),
            k <= n,
            forall|j: int| 0 <= j < k ==> span.of(chars@)[j] == word@[j],
        decreases n - k,
    {
        if chars[span.start + k] != word.get_char(k) {
            assert(span.of(chars@)[k as int] != word@[k as int]);
            return false;
        }
        k = k + 1;
    }
    assert(span.of(chars@) =~= word@);
    true
}

} // verus!
