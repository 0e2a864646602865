//! Text as sequences of characters: upper case and white space as the
//! standard library has them, and on top of these the cutting of a text into
//! lines, the trimming and joining of lines, and numbers in decimal digits.

use vstd::prelude::*;

verus! {

/// What `str::to_uppercase` makes of a text: its upper-case form by the
/// Unicode case mapping, in which one character may become several.
pub uninterp spec fn uppercase(s: Seq<char>) -> Seq<char>;

/// Calls `str::to_uppercase`. The result is the upper-case form of `s`, which
/// depends on the characters of `s` and on nothing else.
#[verifier::external_body]
pub(crate) fn to_uppercase(s: &str) -> (r: String)
    ensures
        r@ == uppercase(s@),
{
    s.to_uppercase()
}

/// Whether `char::is_whitespace` holds of a character: whether it has the
/// Unicode property White_Space.
pub uninterp spec fn white_space(c: char) -> bool;

/// Calls `char::is_whitespace`, which depends on the character alone.
#[verifier::external_body]
pub(crate) fn is_whitespace(c: char) -> (r: bool)
    ensures
        r == white_space(c),
{
    c.is_whitespace()
}

/// Calls `String::from_iter` on a slice of characters: the string holds
/// exactly the characters of `chars`, in their order.
#[verifier::external_body]
pub(crate) fn string_from_chars(chars: &[char]) -> (r: String)
    ensures
        r@ == chars@,
{
    String::from_iter(chars)
}

/// The characters of `s`, one by one.
pub fn chars_of(s: &str) -> (r: Vec<char>)
    ensures
        r@ == s@,
{
    let mut out: Vec<char> = Vec::new();
    for c in it: s.chars()
        invariant
            out@ == it.seq().take(it.index()),
            it.seq() == s@,
    {
        out.push(c);
    }
    out
}

/// The text without the white space at its start.
pub open spec fn trimmed_start(s: Seq<char>) -> Seq<char>
    decreases s.len(),
{
    if s.len() > 0 && white_space(s.first()) {
        trimmed_start(s.drop_first())
    } else {
        s
    }
}

/// The text without the white space at its end.
pub open spec fn trimmed_end(s: Seq<char>) -> Seq<char>
    decreases s.len(),
{
    if s.len() > 0 && white_space(s.last()) {
        trimmed_end(s.drop_last())
    } else {
        s
    }
}

/// The text without the white space at its start and at its end.
pub open spec fn trimmed(s: Seq<char>) -> Seq<char> {
    trimmed_end(trimmed_start(s))
}

/// The text without the white space at its start and at its end.
pub fn trim(chars: &Vec<char>) -> (r: Vec<char>)
    ensures
        r@ == trimmed(chars@),
{
    let len = chars.len();
    let mut start: usize = 0;
    assert(chars@.skip(0) =~= chars@);
    while start < len && is_whitespace(chars[start])
        invariant
            len == chars@.len(),
            start <= len,
            trimmed_start(chars@) == trimmed_start(chars@.skip(start as int)),
        decreases len - start,
    {
        proof {
            let rest = chars@.skip(start as int);
            assert(rest.drop_first() =~= chars@.skip(start + 1));
        }
        start += 1;
    }
    let ghost kept = chars@.skip(start as int);
    let mut end: usize = len;
    while end > start && is_whitespace(chars[end - 1])
        invariant
            len == chars@.len(),
            start <= end <= len,
            kept == chars@.skip(start as int),
            trimmed_end(kept) == trimmed_end(chars@.subrange(start as int, end as int)),
        decreases end,
    {
        proof {
            let part = chars@.subrange(start as int, end as int);
            assert(part.drop_last() =~= chars@.subrange(start as int, end - 1));
        }
        end -= 1;
    }
    let mut out: Vec<char> = Vec::new();
    let mut i: usize = start;
    while i < end
        invariant
            start <= i <= end <= chars@.len(),
            out@ == chars@.subrange(start as int, i as int),
        decreases end - i,
    {
        out.push(chars[i]);
        i += 1;
    }
    out
}

/// The parts one after the other with `sep` between each two of them.
pub open spec fn joined(parts: Seq<Seq<char>>, sep: char) -> Seq<char>
    decreases parts.len(),
{
    if parts.len() == 0 {
        Seq::empty()
    } else if parts.len() == 1 {
        parts[0]
    } else {
        joined(parts.drop_last(), sep).push(sep) + parts.last()
    }
}

/// The pieces that the line feeds cut a text into. A text without a line
/// feed is one piece, and so is the empty text.
pub open spec fn pieces(text: Seq<char>) -> Seq<Seq<char>>
    decreases text.len(),
{
    if text.len() == 0 {
        Seq::empty().push(Seq::empty())
    } else if text.last() == '\n' {
        pieces(text.drop_last()).push(Seq::empty())
    } else {
        let before = pieces(text.drop_last());
        before.drop_last().push(before.last().push(text.last()))
    }
}

/// The lines of a text: its pieces between line feeds, but for an empty
/// piece at the end, so that a line feed at the end of the text opens no new
/// line.
pub open spec fn text_lines(text: Seq<char>) -> Seq<Seq<char>> {
    let all = pieces(text);
    if all.last().len() == 0 {
        all.drop_last()
    } else {
        all
    }
}

/// The text with its spaces taken out.
pub open spec fn without_spaces(text: Seq<char>) -> Seq<char>
    decreases text.len(),
{
    if text.len() == 0 {
        Seq::empty()
    } else if text.last() == ' ' {
        without_spaces(text.drop_last())
    } else {
        without_spaces(text.drop_last()).push(text.last())
    }
}

/// The character of the digit `d`.
pub open spec fn digit_char(d: int) -> char {
    if d == 0 {
        '0'
    } else if d == 1 {
        '1'
    } else if d == 2 {
        '2'
    } else if d == 3 {
        '3'
    } else if d == 4 {
        '4'
    } else if d == 5 {
        '5'
    } else if d == 6 {
        '6'
    } else if d == 7 {
        '7'
    } else if d == 8 {
        '8'
    } else {
        '9'
    }
}

/// The number in decimal digits, without leading zeros.
pub open spec fn decimal(n: nat) -> Seq<char>
    decreases n,
{
    if n < 10 {
        Seq::empty().push(digit_char(n as int))
    } else {
        decimal(n / 10).push(digit_char((n % 10) as int))
    }
}

/// There is always a piece, and no piece holds a line feed.
pub proof fn lemma_pieces(text: Seq<char>)
    ensures
        pieces(text).len() >= 1,
        forall|i: int, k: int|
            0 <= i < pieces(text).len() && 0 <= k < pieces(text)[i].len() ==> (
            #[trigger] pieces(text)[i][k]) != '\n',
    decreases text.len(),
{
    if text.len() > 0 {
        lemma_pieces(text.drop_last());
    }
}

/// The lines of `text`.
pub fn split_lines(text: &Vec<char>) -> (lines: Vec<Vec<char>>)
    ensures
        vecs_view(lines@) == text_lines(text@),
{
    let mut lines: Vec<Vec<char>> = Vec::new();
    let mut line: Vec<char> = Vec::new();
    let mut i: usize = 0;
    while i < text.len()
        invariant
            i <= text@.len(),
            vecs_view(lines@).push(line@) == pieces(text@.take(i as int)),
        decreases text@.len() - i,
    {
        let ghost seen = text@.take(i as int);
        let ghost now = text@.take(i + 1);
        proof {
            assert(now.drop_last() =~= seen);
        }
        if text[i] == '\n' {
            lines.push(line);
            line = Vec::new();
        } else {
            line.push(text[i]);
        }
        i += 1;
    }
    proof {
        assert(text@.take(text@.len() as int) =~= text@);
    }
    if line.len() > 0 {
        lines.push(line);
    }
    lines
}

/// A list of vectors of characters as texts.
pub open spec fn vecs_view(vecs: Seq<Vec<char>>) -> Seq<Seq<char>> {
    Seq::new(vecs.len(), |i: int| vecs[i]@)
}

/// The text with its spaces taken out.
pub fn strip_spaces(text: &Vec<char>) -> (r: Vec<char>)
    ensures
        r@ == without_spaces(text@),
{
    let mut out: Vec<char> = Vec::new();
    let mut i: usize = 0;
    while i < text.len()
        invariant
            i <= text@.len(),
            out@ == without_spaces(text@.take(i as int)),
        decreases text@.len() - i,
    {
        proof {
            assert(text@.take(i + 1).drop_last() =~= text@.take(i as int));
        }
        if text[i] != ' ' {
            out.push(text[i]);
        }
        i += 1;
    }
    assert(text@.take(text@.len() as int) =~= text@);
    out
}

/// The character of a digit.
fn digit(d: u32) -> (c: char)
    requires
        d < 10,
    ensures
        c == digit_char(d as int),
{
    if d == 0 {
        '0'
    } else if d == 1 {
        '1'
    } else if d == 2 {
        '2'
    } else if d == 3 {
        '3'
    } else if d == 4 {
        '4'
    } else if d == 5 {
        '5'
    } else if d == 6 {
        '6'
    } else if d == 7 {
        '7'
    } else if d == 8 {
        '8'
    } else {
        '9'
    }
}

/// Adds to `out` the number in decimal digits.
pub fn push_decimal(out: &mut Vec<char>, n: u32)
    ensures
        final(out)@ == old(out)@ + decimal(n as nat),
    decreases n,
{
    if n >= 10 {
        push_decimal(out, n / 10);
    }
    out.push(digit(n % 10));
}

/// The parts one after the other with `sep` between each two of them.
pub fn join(parts: &Vec<Vec<char>>, sep: char) -> (r: Vec<char>)
    ensures
        r@ == joined(vecs_view(parts@), sep),
{
    let ghost texts = vecs_view(parts@);
    let mut out: Vec<char> = Vec::new();
    let mut i: usize = 0;
    while i < parts.len()
        invariant
            i <= parts@.len(),
            texts == vecs_view(parts@),
            out@ == joined(texts.take(i as int), sep),
        decreases parts@.len() - i,
    {
        if i > 0 {
            out.push(sep);
        }
        let part = &parts[i];
        let mut k: usize = 0;
        let ghost start = out@;
        while k < part.len()
            invariant
                k <= part@.len(),
                out@ == start + part@.take(k as int),
            decreases part@.len() - k,
        {
            out.push(part[k]);
            k += 1;
        }
        proof {
            assert(texts.take(i + 1).drop_last() =~= texts.take(i as int));
        }
        i += 1;
    }
    assert(texts.take(parts@.len() as int) =~= texts);
    out
}


/// Text without a line feed, added to a text, lengthens its last piece.
pub proof fn lemma_pieces_extend(text: Seq<char>, more: Seq<char>)
    requires
        forall|k: int| 0 <= k < more.len() ==> more[k] != '\n',
    ensures
        pieces(text + more) == pieces(text).drop_last().push(pieces(text).last() + more),
    decreases more.len(),
{
    lemma_pieces(text);
    let all = pieces(text);
    if !(more.len() == 0) {
        let shorter = more.drop_last();
        lemma_pieces_extend(text, shorter);
        assert((text + more).drop_last() =~= text + shorter);
        assert((all.last() + shorter).push(more.last()) =~= all.last() + more);
    }
}

/// The pieces of lines joined by line feeds are the lines, where no line
/// holds a line feed.
pub proof fn lemma_pieces_of_joined(lines: Seq<Seq<char>>)
    requires
        lines.len() >= 1,
        forall|i: int, k: int|
            0 <= i < lines.len() && 0 <= k < lines[i].len() ==> (#[trigger] lines[i][k]) != '\n',
    ensures
        pieces(joined(lines, '\n')) == lines,
    decreases lines.len(),
{
    let last = lines.last();
    assert forall|k: int| 0 <= k < last.len() implies last[k] != '\n' by {}
    if lines.len() == 1 {
        let none = Seq::<char>::empty();
        lemma_pieces_extend(none, last);
    } else {
        let head = lines.drop_last();
        assert forall|i: int, k: int| 0 <= i < head.len() && 0 <= k < head[i].len() implies (
        #[trigger] head[i][k]) != '\n' by {}
        lemma_pieces_of_joined(head);
        let fed = joined(head, '\n').push('\n');
        assert(fed.drop_last() =~= joined(head, '\n'));
        lemma_pieces_extend(fed, last);
    }
}

/// The lines of lines joined by line feeds are these lines, where none holds
/// a line feed and the last is not empty.
pub proof fn lemma_lines_of_joined(lines: Seq<Seq<char>>)
    requires
        lines.len() >= 1,
        lines.last().len() > 0,
        forall|i: int, k: int|
            0 <= i < lines.len() && 0 <= k < lines[i].len() ==> (#[trigger] lines[i][k]) != '\n',
    ensures
        text_lines(joined(lines, '\n')) == lines,
{
    lemma_pieces_of_joined(lines);
}

/// Text that neither starts nor ends with white space is left as it is when
/// the white space at its ends is taken off.
pub proof fn lemma_trimmed_same(text: Seq<char>)
    requires
        text.len() > 0,
        !white_space(text.first()),
        !white_space(text.last()),
    ensures
        trimmed(text) == text,
{
}

} // verus!
