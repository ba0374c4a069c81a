//! Text primitives of the fixed-column codec: white space, trimming, and the
//! byte columns of a line.
//!
//! A line is addressed by byte offsets, as the column layout demands, while
//! the fields taken from it are character sequences. A column exists only
//! when it lies inside the line and both of its ends fall on character
//! boundaries of the line's UTF-8 encoding.

use vstd::prelude::*;
use vstd::string::*;
use vstd::utf8::*;

verus! {

/// Characters with the Unicode `White_Space` property, the ones that trimming removes.
pub open spec fn is_whitespace(c: char) -> bool {
    let u = c as u32;
    ||| 0x09 <= u <= 0x0D
    ||| u == 0x20
    ||| u == 0x85
    ||| u == 0xA0
    ||| u == 0x1680
    ||| 0x2000 <= u <= 0x200A
    ||| u == 0x2028
    ||| u == 0x2029
    ||| u == 0x202F
    ||| u == 0x205F
    ||| u == 0x3000
}

/// `s` without its leading white space.
pub open spec fn trimmed_start(s: Seq<char>) -> Seq<char>
    decreases s.len(),
{
    if s.len() > 0 && is_whitespace(s.first()) {
        trimmed_start(s.drop_first())
    } else {
        s
    }
}

/// `s` without its trailing white space.
pub open spec fn trimmed_end(s: Seq<char>) -> Seq<char>
    decreases s.len(),
{
    if s.len() > 0 && is_whitespace(s.last()) {
        trimmed_end(s.drop_last())
    } else {
        s
    }
}

/// `s` without leading and trailing white space.
pub open spec fn trimmed(s: Seq<char>) -> Seq<char> {
    trimmed_end(trimmed_start(s))
}

/// A run of `n` blanks.
pub open spec fn blanks(n: int) -> Seq<char> {
    Seq::new(
        if n > 0 {
            n as nat
        } else {
            0
        },
        |i: int| ' ',
    )
}

/// `s` left-justified in a field of at least `width` characters.
pub open spec fn pad_right(s: Seq<char>, width: int) -> Seq<char> {
    s + blanks(width - s.len())
}

/// `s` right-justified in a field of at least `width` characters.
pub open spec fn pad_left(s: Seq<char>, width: int) -> Seq<char> {
    blanks(width - s.len()) + s
}

/// Whether the bytes `[from, to)` of `line` can be taken as text.
pub open spec fn has_column(line: Seq<u8>, from: int, to: int) -> bool {
    &&& 0 <= from <= to <= line.len()
    &&& is_char_boundary(line, from)
    &&& is_char_boundary(line, to)
}

/// The characters held in the bytes `[from, to)` of `line`.
pub open spec fn column(line: Seq<u8>, from: int, to: int) -> Seq<char> {
    decode_utf8(line.subrange(from, to))
}

/// The bytes of a text made of ASCII characters.
pub open spec fn ascii_bytes(s: Seq<char>) -> Seq<u8> {
    Seq::new(s.len(), |i: int| s[i] as u8)
}

/// Whether `line` begins with the bytes of `marker`.
pub open spec fn starts_with(line: Seq<u8>, marker: Seq<u8>) -> bool {
    marker.len() <= line.len() && line.subrange(0, marker.len() as int) == marker
}

/// Decides the `White_Space` property of a character.
pub fn whitespace(c: char) -> (r: bool)
    ensures
        r == is_whitespace(c),
{
    let u: u32 = c as u32;
    (0x09 <= u && u <= 0x0D) || u == 0x20 || u == 0x85 || u == 0xA0 || u == 0x1680 || (0x2000 <= u
        && u <= 0x200A) || u == 0x2028 || u == 0x2029 || u == 0x202F || u == 0x205F || u == 0x3000
}

proof fn lemma_trimmed_start_skip(s: Seq<char>, k: int)
    requires
        0 <= k <= s.len(),
        forall|j: int| 0 <= j < k ==> is_whitespace(#[trigger] s[j]),
    ensures
        trimmed_start(s) == trimmed_start(s.subrange(k, s.len() as int)),
    decreases k,
{
    if k == 0 {
        assert(s.subrange(0, s.len() as int) =~= s);
    } else {
        assert(is_whitespace(s[0]));
        let rest = s.drop_first();
        assert forall|j: int| 0 <= j < k - 1 implies is_whitespace(#[trigger] rest[j]) by {
            assert(rest[j] == s[j + 1]);
        }
        lemma_trimmed_start_skip(rest, k - 1);
        assert(rest.subrange(k - 1, rest.len() as int) =~= s.subrange(k, s.len() as int));
    }
}

proof fn lemma_trimmed_end_skip(s: Seq<char>, k: int)
    requires
        0 <= k <= s.len(),
        forall|j: int| k <= j < s.len() ==> is_whitespace(#[trigger] s[j]),
    ensures
        trimmed_end(s) == trimmed_end(s.subrange(0, k)),
    decreases s.len() - k,
{
    if k == s.len() {
        assert(s.subrange(0, k) =~= s);
    } else {
        assert(is_whitespace(s[s.len() - 1]));
        let rest = s.drop_last();
        assert forall|j: int| k <= j < rest.len() implies is_whitespace(#[trigger] rest[j]) by {
            assert(rest[j] == s[j]);
        }
        lemma_trimmed_end_skip(rest, k);
        assert(rest.subrange(0, k) =~= s.subrange(0, k));
    }
}

/// Removes leading and trailing white space.
pub fn trim(s: &str) -> (r: &str)
    ensures
        r@ == trimmed(s@),
{
    let n = s.unicode_len();
    let mut start: usize = 0;
    while start < n && whitespace(s.get_char(start))
        invariant
            start <= n == s@.len(),
            forall|j: int| 0 <= j < start ==> is_whitespace(#[trigger] s@[j]),
        decreases n - start,
    {
        start += 1;
    }
    let mut end: usize = n;
    while end > start && whitespace(s.get_char(end - 1))
        invariant
            start <= end <= n == s@.len(),
            forall|j: int| end <= j < n ==> is_whitespace(#[trigger] s@[j]),
        decreases end,
    {
        end -= 1;
    }
    proof {
        let head = s@.subrange(start as int, n as int);
        lemma_trimmed_start_skip(s@, start as int);
        assert(trimmed_start(s@) == head);
        assert forall|j: int| end - start <= j < head.len() implies is_whitespace(
            #[trigger] head[j],
        ) by {
            assert(head[j] == s@[j + start]);
        }
        lemma_trimmed_end_skip(head, end - start);
        assert(head.subrange(0, end - start) =~= s@.subrange(start as int, end as int));
    }
    s.substring_char(start, end)
}

proof fn lemma_boundary_in_prefix(line: Seq<u8>, from: int, to: int)
    requires
        valid_utf8(line),
        has_column(line, from, to),
    ensures
        valid_utf8(line.subrange(0, to)),
        is_char_boundary(line.subrange(0, to), from),
{
    let head = line.subrange(0, to);
    valid_utf8_split(line, to);
    if from == to {
        is_char_boundary_start_end_of_seq(head);
    } else {
        is_char_boundary_iff_not_is_continuation_byte(line, from);
        is_char_boundary_iff_not_is_continuation_byte(head, from);
    }
}

/// The text in the bytes `[from, to)` of `line`, where there is any.
pub fn get_column(line: &str, from: usize, to: usize) -> (r: Option<&str>)
    ensures
        r is Some <==> has_column(line.spec_bytes(), from as int, to as int),
        r matches Some(text) ==> text@ == column(line.spec_bytes(), from as int, to as int)
            && text.spec_bytes() == line.spec_bytes().subrange(from as int, to as int),
{
    broadcast use encode_utf8_valid_utf8, encode_utf8_decode_utf8;

    if from > to || to > line.as_bytes().len() || !line.is_char_boundary(from)
        || !line.is_char_boundary(to) {
        return None;
    }
    proof {
        lemma_boundary_in_prefix(line.spec_bytes(), from as int, to as int);
    }
    let (head, _) = line.split_at(to);
    let (_, text) = head.split_at(from);
    proof {
        assert(text.spec_bytes() =~= line.spec_bytes().subrange(from as int, to as int));
        assert(decode_utf8(encode_utf8(text@)) == text@);
    }
    Some(text)
}

/// Whether the line begins with the bytes of `marker`.
pub fn has_prefix(line: &str, marker: &str) -> (r: bool)
    ensures
        r == starts_with(line.spec_bytes(), marker.spec_bytes()),
{
    let bytes = line.as_bytes();
    let pattern = marker.as_bytes();
    if pattern.len() > bytes.len() {
        return false;
    }
    let mut i: usize = 0;
    while i < pattern.len()
        invariant
            i <= pattern@.len() <= bytes@.len(),
            bytes@ == line.spec_bytes(),
            pattern@ == marker.spec_bytes(),
            forall|j: int| 0 <= j < i ==> bytes@[j] == pattern@[j],
        decreases pattern.len() - i,
    {
        if bytes[i] != pattern[i] {
            proof {
                assert(bytes@.subrange(0, pattern@.len() as int)[i as int] == bytes@[i as int]);
            }
            return false;
        }
        i += 1;
    }
    proof {
        assert(bytes@.subrange(0, pattern@.len() as int) =~= pattern@);
    }
    true
}

/// Appends one character to a string by `String::push` of the standard
/// library. Taken on trust: afterwards the string holds what it held before,
/// followed by `c`.
#[verifier::external_body]
fn push_char(out: &mut String, c: char)
    ensures
        final(out)@ == old(out)@.push(c),
{
    out.push(c);
}

/// Appends one character.
pub(crate) fn put(out: &mut String, c: char)
    ensures
        final(out)@ == old(out)@ + seq![c],
{
    push_char(out, c);
    proof {
        assert(out@ =~= old(out)@ + seq![c]);
    }
}

/// Appends `n` blanks.
pub(crate) fn push_blanks(out: &mut String, n: usize)
    ensures
        final(out)@ == old(out)@ + blanks(n as int),
{
    let mut i: usize = 0;
    proof {
        assert(out@ =~= old(out)@ + blanks(0));
    }
    while i < n
        invariant
            i <= n,
            out@ == old(out)@ + blanks(i as int),
        decreases n - i,
    {
        push_char(out, ' ');
        i += 1;
        proof {
            assert(blanks(i as int) =~= blanks(i - 1).push(' '));
            assert(out@ =~= old(out)@ + blanks(i as int));
        }
    }
}

/// Appends `text` left-justified in a field of at least `width` characters.
pub(crate) fn push_left(out: &mut String, text: &str, width: usize)
    ensures
        final(out)@ == old(out)@ + pad_right(text@, width as int),
{
    let n = text.unicode_len();
    out.append(text);
    if n < width {
        push_blanks(out, width - n);
    } else {
        proof {
            assert(blanks(width - n) =~= Seq::<char>::empty());
        }
    }
    proof {
        assert(out@ =~= old(out)@ + pad_right(text@, width as int));
    }
}

/// Appends `text` right-justified in a field of at least `width` characters.
pub(crate) fn push_right(out: &mut String, text: &str, width: usize)
    ensures
        final(out)@ == old(out)@ + pad_left(text@, width as int),
{
    let n = text.unicode_len();
    if n < width {
        push_blanks(out, width - n);
    } else {
        proof {
            assert(blanks(width - n) =~= Seq::<char>::empty());
        }
    }
    out.append(text);
    proof {
        assert(out@ =~= old(out)@ + pad_left(text@, width as int));
    }
}

/// Leading white space does not change what trimming gives.
pub proof fn lemma_trimmed_after_blank(s: Seq<char>)
    requires
        s.len() > 0,
        is_whitespace(s.first()),
    ensures
        trimmed(s) == trimmed(s.drop_first()),
{
}

/// Trailing white space does not change what trimming gives.
pub proof fn lemma_trimmed_before_blank(s: Seq<char>, c: char)
    requires
        is_whitespace(c),
    ensures
        trimmed(s.push(c)) == trimmed(s),
    decreases s.len(),
{
    let longer = s.push(c);
    if s.len() == 0 {
        assert(longer.drop_first() =~= s);
        assert(trimmed_start(longer) == trimmed_start(s));
    } else if is_whitespace(s.first()) {
        assert(longer.first() == s.first());
        assert(longer.drop_first() =~= s.drop_first().push(c));
        lemma_trimmed_before_blank(s.drop_first(), c);
    } else {
        assert(longer.first() == s.first());
        assert(trimmed_start(longer) == longer);
        assert(longer.drop_last() =~= s);
    }
}

/// Trimming takes a piece out of the text: what it gives lies between two places of the text.
pub proof fn lemma_trimmed_is_piece(s: Seq<char>) -> (ends: (int, int))
    ensures
        0 <= ends.0 <= ends.1 <= s.len(),
        trimmed(s) == s.subrange(ends.0, ends.1),
{
    let from = lemma_trimmed_start_is_tail(s);
    let tail = s.subrange(from, s.len() as int);
    let to = lemma_trimmed_end_is_head(tail);
    assert(tail.subrange(0, to) =~= s.subrange(from, from + to));
    (from, from + to)
}

proof fn lemma_trimmed_start_is_tail(s: Seq<char>) -> (from: int)
    ensures
        0 <= from <= s.len(),
        trimmed_start(s) == s.subrange(from, s.len() as int),
    decreases s.len(),
{
    if s.len() > 0 && is_whitespace(s.first()) {
        let inner = lemma_trimmed_start_is_tail(s.drop_first());
        assert(s.drop_first().subrange(inner, s.len() - 1) =~= s.subrange(
            inner + 1,
            s.len() as int,
        ));
        inner + 1
    } else {
        assert(s.subrange(0, s.len() as int) =~= s);
        0
    }
}

proof fn lemma_trimmed_end_is_head(s: Seq<char>) -> (to: int)
    ensures
        0 <= to <= s.len(),
        trimmed_end(s) == s.subrange(0, to),
    decreases s.len(),
{
    if s.len() > 0 && is_whitespace(s.last()) {
        let inner = lemma_trimmed_end_is_head(s.drop_last());
        assert(s.drop_last().subrange(0, inner) =~= s.subrange(0, inner));
        inner
    } else {
        assert(s.subrange(0, s.len() as int) =~= s);
        s.len() as int
    }
}

/// In a line of ASCII characters every byte is one character: each range of
/// bytes is a column, and it holds the characters of the same range.
pub proof fn lemma_ascii_column(line: Seq<char>, from: int, to: int)
    requires
        is_ascii_chars(line),
        0 <= from <= to <= line.len(),
    ensures
        encode_utf8(line).len() == line.len(),
        has_column(encode_utf8(line), from, to),
        column(encode_utf8(line), from, to) == line.subrange(from, to),
{
    let bytes = encode_utf8(line);
    is_ascii_chars_encode_utf8(line);
    encode_utf8_valid_utf8(line);
    is_char_boundary_start_end_of_seq(bytes);
    if from < bytes.len() {
        assert(line[from] <= '\u{7f}');
        assert(bytes[from] == line[from] as u8);
        is_char_boundary_iff_not_is_continuation_byte(bytes, from);
    }
    if to < bytes.len() {
        assert(line[to] <= '\u{7f}');
        assert(bytes[to] == line[to] as u8);
        is_char_boundary_iff_not_is_continuation_byte(bytes, to);
    }
    let piece = line.subrange(from, to);
    assert(is_ascii_chars(piece)) by {
        assert forall|i: int| 0 <= i < piece.len() implies '\0' <= #[trigger] piece[i]
            <= '\u{7f}' by {
            assert(piece[i] == line[from + i]);
        }
    }
    is_ascii_chars_encode_utf8(piece);
    assert(encode_utf8(piece) =~= bytes.subrange(from, to)) by {
        assert forall|i: int| 0 <= i < piece.len() implies encode_utf8(piece)[i] == bytes.subrange(
            from,
            to,
        )[i] by {
            assert(piece[i] == line[from + i]);
            assert(encode_utf8(piece)[i] == piece[i] as u8);
            assert(bytes[from + i] == line[from + i] as u8);
        }
    }
    encode_utf8_decode_utf8(piece);
}

/// A text that neither begins nor ends with white space is its own trimming.
pub proof fn lemma_nothing_to_trim(s: Seq<char>)
    requires
        s.len() > 0 ==> !is_whitespace(s.first()) && !is_whitespace(s.last()),
    ensures
        trimmed(s) == s,
{
}

/// Blanks around a text do not change what trimming gives.
pub proof fn lemma_trimmed_among_blanks(s: Seq<char>, before: int, after: int)
    ensures
        trimmed(blanks(before) + s + blanks(after)) == trimmed(s),
    decreases
            if before > 0 {
                before
            } else {
                0
            },
            if after > 0 {
                after
            } else {
                0
            },
{
    let wide = blanks(before) + s + blanks(after);
    if before > 0 {
        lemma_trimmed_among_blanks(s, before - 1, after);
        assert(wide.first() == ' ');
        assert(wide.drop_first() =~= blanks(before - 1) + s + blanks(after));
        lemma_trimmed_after_blank(wide);
    } else if after > 0 {
        lemma_trimmed_among_blanks(s, before, after - 1);
        let narrow = blanks(before) + s + blanks(after - 1);
        assert(wide =~= narrow.push(' '));
        lemma_trimmed_before_blank(narrow, ' ');
    } else {
        assert(wide =~= s);
    }
}

} // verus!
