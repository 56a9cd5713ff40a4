//! A response as a list of lines, and how the positions that the
//! classifier reads relate to that list.

use vstd::prelude::*;
use crate::lexer::{crlf_at, ends_with_crlf, header_end, is_first_crlf, lemma_first_crlf_unique};

verus! {

/// Whether a text holds no line terminator, so that it can be one line.
pub open spec fn is_line(l: Seq<char>) -> bool {
    forall|j: int| !crlf_at(l, j)
}

/// The lines joined again, one terminator between neighbours.
pub open spec fn join_crlf(lines: Seq<Seq<char>>) -> Seq<char>
    decreases lines.len(),
{
    if lines.len() == 0 {
        Seq::empty()
    } else if lines.len() == 1 {
        lines[0]
    } else {
        join_crlf(lines.drop_last()) + "\r\n"@ + lines.last()
    }
}

/// The text of a response that is made of these lines: each line is
/// followed by the terminator.
pub open spec fn text_of_lines(lines: Seq<Seq<char>>) -> Seq<char> {
    join_crlf(lines) + "\r\n"@
}

/// Whether the text closes with a line that holds the end-of-block marker
/// and nothing else.
pub open spec fn ends_with_end_block(s: Seq<char>) -> bool {
    s.len() >= 7 && s.subrange(s.len() - 7, s.len() as int) == "\r\nEND\r\n"@
}

/// The payload of a value response whose header is `h` characters long:
/// all that stands between the header's terminator and the terminator
/// before the closing line, embedded terminators included. It is empty
/// where the closing line follows the header directly.
pub open spec fn payload(s: Seq<char>, h: int) -> Seq<char> {
    if h + 2 <= s.len() - 7 {
        s.subrange(h + 2, s.len() - 7)
    } else {
        Seq::empty()
    }
}

/// Joining two or more lines puts the first line and a terminator before
/// the join of the others.
pub proof fn lemma_join_from_the_left(lines: Seq<Seq<char>>)
    requires
        lines.len() >= 2,
    ensures
        join_crlf(lines) == lines[0] + "\r\n"@ + join_crlf(lines.skip(1)),
    decreases lines.len(),
{
    let front = lines.drop_last();
    let tail = lines.skip(1);
    if lines.len() == 2 {
        assert(join_crlf(front) == lines[0]);
        assert(join_crlf(tail) == lines[1]);
    } else {
        lemma_join_from_the_left(front);
        assert(front.skip(1) =~= tail.drop_last());
        assert(join_crlf(tail) == join_crlf(tail.drop_last()) + "\r\n"@ + tail.last());
        assert(join_crlf(lines) =~= lines[0] + "\r\n"@ + join_crlf(tail));
    }
}

/// A line followed by the terminator is a text of one line: it ends on a
/// line boundary and its first terminator is its last.
pub proof fn lemma_one_line(line: Seq<char>)
    requires
        is_line(line),
    ensures
        ends_with_crlf(line + "\r\n"@),
        header_end(line + "\r\n"@) == line.len(),
        (line + "\r\n"@).len() == line.len() + 2,
        (line + "\r\n"@).take(line.len() as int) == line,
{
    reveal_strlit("\r\n");
    let s = line + "\r\n"@;
    let h = line.len() as int;
    assert(is_first_crlf(s, h)) by {
        assert forall|j: int| 0 <= j < h implies !crlf_at(s, j) by {
            assert(!crlf_at(line, j));
            assert(s[j] == line[j]);
            if j + 1 < h {
                assert(s[j + 1] == line[j + 1]);
            }
        }
    }
    lemma_first_crlf_unique(s, h);
    assert(s.take(h) =~= line);
}

/// In the text of two or more lines the first line is the header and more
/// follows its terminator; the text closes with the end-of-block line
/// exactly when its last line is the marker; and then the payload is the
/// lines between the first and the last, joined by terminators.
pub proof fn lemma_several_lines(lines: Seq<Seq<char>>)
    requires
        lines.len() >= 2,
        is_line(lines[0]),
        is_line(lines.last()),
    ensures
        ends_with_crlf(text_of_lines(lines)),
        header_end(text_of_lines(lines)) == lines[0].len(),
        lines[0].len() + 2 < text_of_lines(lines).len(),
        text_of_lines(lines).take(lines[0].len() as int) == lines[0],
        ends_with_end_block(text_of_lines(lines)) <==> lines.last() == "END"@,
        lines.last() == "END"@ ==> payload(text_of_lines(lines), lines[0].len() as int)
            == join_crlf(lines.subrange(1, lines.len() - 1)),
{
    reveal_strlit("\r\n");
    reveal_strlit("\r\nEND\r\n");
    reveal_strlit("END");
    let s = text_of_lines(lines);
    let first = lines[0];
    let last = lines.last();
    let h = first.len() as int;
    let n = s.len() as int;
    let tail = join_crlf(lines.skip(1));
    let front = join_crlf(lines.drop_last());
    lemma_join_from_the_left(lines);
    assert(s =~= first + "\r\n"@ + tail + "\r\n"@);
    assert(s =~= front + "\r\n"@ + last + "\r\n"@);
    assert(is_first_crlf(s, h)) by {
        assert forall|j: int| 0 <= j < h implies !crlf_at(s, j) by {
            assert(!crlf_at(first, j));
            assert(s[j] == first[j]);
            if j + 1 < h {
                assert(s[j + 1] == first[j + 1]);
            }
        }
    }
    lemma_first_crlf_unique(s, h);
    assert(s.take(h) =~= first);
    let k = last.len() as int;
    assert(n == front.len() + 2 + k + 2);
    assert(s[n - k - 4] == '\r' && s[n - k - 3] == '\n');
    assert(forall|i: int| 0 <= i < k ==> s[n - k - 2 + i] == last[i]);
    if ends_with_end_block(s) {
        let closing = s.subrange(n - 7, n);
        assert(forall|i: int| 0 <= i < 7 ==> closing[i] == s[n - 7 + i]);
        assert(closing[0] == '\r' && closing[1] == '\n' && closing[2] == 'E' && closing[3] == 'N'
            && closing[4] == 'D');
        if k >= 5 {
            assert(last[k - 5] == s[n - 7] && last[k - 4] == s[n - 6]);
            assert(crlf_at(last, k - 5));
        }
        assert(k == 3);
        assert(last =~= "END"@);
    }
    if last == "END"@ {
        assert(s.subrange(n - 7, n) =~= "\r\nEND\r\n"@);
        let middle = lines.subrange(1, lines.len() - 1);
        if lines.len() == 2 {
            assert(middle =~= Seq::<Seq<char>>::empty());
            assert(payload(s, h) =~= join_crlf(middle));
        } else {
            let others = lines.skip(1);
            assert(others.drop_last() =~= middle);
            assert(others.last() == last);
            assert(tail == join_crlf(middle) + "\r\n"@ + last);
            assert(payload(s, h) =~= join_crlf(middle));
        }
    }
}

/// Joining two lists of lines one after the other joins their texts with
/// a terminator.
pub proof fn lemma_join_of_two_lists(a: Seq<Seq<char>>, b: Seq<Seq<char>>)
    requires
        a.len() >= 1,
        b.len() >= 1,
    ensures
        join_crlf(a + b) == join_crlf(a) + "\r\n"@ + join_crlf(b),
    decreases b.len(),
{
    if b.len() == 1 {
        assert((a + b).drop_last() =~= a);
    } else {
        lemma_join_of_two_lists(a, b.drop_last());
        assert((a + b).drop_last() =~= a + b.drop_last());
        assert(join_crlf(a + b) =~= join_crlf(a) + "\r\n"@ + join_crlf(b));
    }
}

/// Every text is the join of one or more lines.
pub proof fn lemma_split_into_lines(q: Seq<char>) -> (lines: Seq<Seq<char>>)
    ensures
        lines.len() >= 1,
        forall|k: int| 0 <= k < lines.len() ==> is_line(#[trigger] lines[k]),
        join_crlf(lines) == q,
    decreases q.len(),
{
    if is_line(q) {
        seq![q]
    } else {
        let j = choose|j: int| crlf_at(q, j);
        let a = lemma_split_into_lines(q.take(j));
        let b = lemma_split_into_lines(q.skip(j + 2));
        lemma_join_of_two_lists(a, b);
        assert(q =~= q.take(j) + "\r\n"@ + q.skip(j + 2)) by {
            reveal_strlit("\r\n");
        }
        a + b
    }
}

/// Every text that ends on a line boundary is the text of one or more
/// lines.
pub proof fn lemma_terminated_text_has_lines(s: Seq<char>)
    requires
        ends_with_crlf(s),
    ensures
        exists|lines: Seq<Seq<char>>|
            {
                &&& lines.len() >= 1
                &&& forall|k: int| 0 <= k < lines.len() ==> is_line(#[trigger] lines[k])
                &&& #[trigger] text_of_lines(lines) == s
            },
{
    let lines = lemma_split_into_lines(s.take(s.len() - 2));
    assert(text_of_lines(lines) =~= s) by {
        reveal_strlit("\r\n");
    }
}

} // verus!
