use vstd::prelude::*;
use vstd::utf8::{
    decode_first_scalar, decode_utf8, decode_utf8_split, encode_utf8, encode_utf8_decode_utf8,
    encode_utf8_valid_utf8, is_char_boundary, is_char_boundary_iff_not_is_continuation_byte,
    is_continuation_byte, length_of_first_scalar, pop_first_scalar, valid_utf8, valid_utf8_split,
};

use crate::progress_lines::{
    after_first_line, complete_lines, decoded, first_line, has_delimiter, is_delimiter,
    lemma_line_len, pending, split_lines,
};
use crate::text::lossy_text;

verus! {

/// Whether `c` ends a line of text: a line feed or a carriage return.
pub open spec fn is_line_end(c: char) -> bool {
    c == '\n' || c == '\r'
}

/// `text` with every line end taken out.
pub open spec fn without_line_ends(text: Seq<char>) -> Seq<char> {
    text.filter(|c: char| !is_line_end(c))
}

/// Whether every line of `lines` is valid UTF-8.
pub open spec fn all_valid(lines: Seq<Seq<u8>>) -> bool {
    forall|k: int| 0 <= k < lines.len() ==> valid_utf8(#[trigger] lines[k])
}

/// The first character of valid UTF-8 is a line end exactly where the first byte is a
/// delimiter, which then is the whole character.
pub proof fn lemma_first_character(bytes: Seq<u8>)
    requires
        valid_utf8(bytes),
        bytes.len() > 0,
    ensures
        is_line_end(decode_first_scalar(bytes) as char) <==> is_delimiter(bytes[0]),
        is_delimiter(bytes[0]) ==> length_of_first_scalar(bytes) == 1,
        1 <= length_of_first_scalar(bytes) <= bytes.len(),
        forall|i: int| 1 <= i < length_of_first_scalar(bytes) ==> !is_delimiter(#[trigger] bytes[i]),
{
    let b0 = bytes[0];
    let first = decode_first_scalar(bytes);
    if b0 <= 0x7f {
        assert((b0 & 0x7f) as u32 == b0 as u32) by (bit_vector)
            requires
                b0 <= 0x7f,
        ;
        assert(first == b0 as u32);
    } else if 0xc0 <= b0 <= 0xdf {
        let b1 = bytes[1];
        assert((((b0 & 0x1f) as u32) << 6) | ((b1 & 0x3f) as u32) <= 0x7ff) by (bit_vector);
        assert(0x80 <= first <= 0x7ff);
    } else if 0xe0 <= b0 <= 0xef {
        let b1 = bytes[1];
        let b2 = bytes[2];
        assert((((b0 & 0x0f) as u32) << 12) | (((b1 & 0x3f) as u32) << 6) | ((b2 & 0x3f) as u32)
            <= 0xffff) by (bit_vector);
        assert(0x800 <= first <= 0xffff);
    } else {
        assert(0x10000 <= first <= 0x10ffff);
    }
}

/// Valid UTF-8 without delimiter decodes to a text without line end.
pub proof fn lemma_text_of_one_line(bytes: Seq<u8>)
    requires
        valid_utf8(bytes),
        forall|i: int| 0 <= i < bytes.len() ==> !is_delimiter(#[trigger] bytes[i]),
    ensures
        without_line_ends(decode_utf8(bytes)) == decode_utf8(bytes),
    decreases bytes.len(),
{
    let keep = |c: char| !is_line_end(c);
    reveal(Seq::filter);
    if bytes.len() > 0 {
        let first = decode_first_scalar(bytes) as char;
        let rest = pop_first_scalar(bytes);
        lemma_first_character(bytes);
        assert forall|i: int| 0 <= i < rest.len() implies !is_delimiter(#[trigger] rest[i]) by {
            assert(rest[i] == bytes[i + length_of_first_scalar(bytes)]);
        }
        lemma_text_of_one_line(rest);
        assert(!is_delimiter(bytes[0]));
        Seq::filter_distributes_over_add(seq![first], decode_utf8(rest), keep);
        assert(seq![first].drop_last() == Seq::<char>::empty());
        assert(seq![first].filter(keep) == seq![first]);
    }
}

/// The text of valid UTF-8 with a delimiter in it: the text of its first line, the line end,
/// and the text of what follows; each of the two parts is valid UTF-8 as well.
pub proof fn lemma_text_of_first_line(bytes: Seq<u8>)
    requires
        valid_utf8(bytes),
        has_delimiter(bytes),
    ensures
        valid_utf8(first_line(bytes)),
        valid_utf8(after_first_line(bytes)),
        decode_utf8(bytes) == decode_utf8(first_line(bytes)).push(
            bytes[first_line(bytes).len() as int] as char,
        ) + decode_utf8(after_first_line(bytes)),
        is_line_end(bytes[first_line(bytes).len() as int] as char),
{
    lemma_line_len(bytes);
    let n = first_line(bytes).len() as int;
    let tail = bytes.subrange(n, bytes.len() as int);
    assert(!is_continuation_byte(bytes[n]));
    is_char_boundary_iff_not_is_continuation_byte(bytes, n);
    valid_utf8_split(bytes, n);
    decode_utf8_split(bytes, n);
    assert(bytes.subrange(0, n) == first_line(bytes));
    assert(tail[0] == bytes[n]);
    lemma_first_character(tail);
    assert(pop_first_scalar(tail) == after_first_line(bytes));
    let b = bytes[n];
    assert((b & 0x7f) as u32 == b as u32) by (bit_vector)
        requires
            b <= 0x7f,
    ;
    assert(decode_first_scalar(tail) == b as u32);
    assert(decode_utf8(tail) == seq![b as char] + decode_utf8(after_first_line(bytes)));
    assert(decode_utf8(first_line(bytes)) + (seq![b as char] + decode_utf8(
        after_first_line(bytes),
    )) == decode_utf8(first_line(bytes)).push(b as char) + decode_utf8(after_first_line(bytes)));
}

/// The texts of the ended lines start with the text of the first line.
proof fn lemma_texts_of_ended_lines(bytes: Seq<u8>)
    requires
        has_delimiter(bytes),
        valid_utf8(first_line(bytes)),
    ensures
        decoded(complete_lines(bytes)).flatten() == decode_utf8(first_line(bytes)) + decoded(
            complete_lines(after_first_line(bytes)),
        ).flatten(),
{
    let texts = decoded(complete_lines(bytes));
    assert(texts.first() == decode_utf8(first_line(bytes)));
    assert(texts.drop_first() == decoded(complete_lines(after_first_line(bytes))));
}

/// Taking the line ends out of a line, its line end and what follows leaves the line and what
/// follows without its line ends.
proof fn lemma_without_first_line_end(
    whole: Seq<char>,
    line: Seq<char>,
    end: char,
    rest: Seq<char>,
    ended: Seq<char>,
    last: Seq<char>,
)
    requires
        whole == line.push(end) + rest,
        is_line_end(end),
        without_line_ends(line) == line,
        ended + last == without_line_ends(rest),
    ensures
        (line + ended) + last == without_line_ends(whole),
{
    let keep = |c: char| !is_line_end(c);
    Seq::filter_distributes_over_add(line.push(end), rest, keep);
    line.lemma_filter_push(end, keep);
    assert((line + ended) + last == line + (ended + last));
}

/// The ended lines and the unended rest of valid UTF-8 are valid UTF-8.
pub proof fn lemma_parts_are_valid(bytes: Seq<u8>)
    requires
        valid_utf8(bytes),
    ensures
        all_valid(complete_lines(bytes)),
        valid_utf8(pending(bytes)),
    decreases bytes.len(),
{
    lemma_line_len(bytes);
    if has_delimiter(bytes) {
        let rest = after_first_line(bytes);
        lemma_text_of_first_line(bytes);
        lemma_parts_are_valid(rest);
        let done = complete_lines(bytes);
        assert forall|k: int| 0 <= k < done.len() implies valid_utf8(#[trigger] done[k]) by {
            if k > 0 {
                assert(done[k] == complete_lines(rest)[k - 1]);
            } else {
                assert(done[k] == first_line(bytes));
            }
        }
    } else {
        assert(complete_lines(bytes) == Seq::<Seq<u8>>::empty());
    }
}

/// The step at a delimiter: what holds of the rest holds of the whole.
proof fn lemma_parts_of_text_step(bytes: Seq<u8>)
    requires
        valid_utf8(bytes),
        has_delimiter(bytes),
        decoded(complete_lines(after_first_line(bytes))).flatten() + decode_utf8(
            pending(after_first_line(bytes)),
        ) == without_line_ends(decode_utf8(after_first_line(bytes))),
    ensures
        decoded(complete_lines(bytes)).flatten() + decode_utf8(pending(bytes)) == without_line_ends(
            decode_utf8(bytes),
        ),
{
    let line = decode_utf8(first_line(bytes));
    let rest = after_first_line(bytes);
    let end = bytes[first_line(bytes).len() as int] as char;
    let ended = decoded(complete_lines(rest)).flatten();
    let last = decode_utf8(pending(rest));
    assert(valid_utf8(first_line(bytes)) && is_line_end(end) && decode_utf8(bytes) == line.push(
        end,
    ) + decode_utf8(rest)) by {
        lemma_text_of_first_line(bytes);
    }
    assert(without_line_ends(line) == line) by {
        lemma_line_len(bytes);
        lemma_text_of_one_line(first_line(bytes));
    }
    assert(decoded(complete_lines(bytes)).flatten() == line + ended) by {
        lemma_texts_of_ended_lines(bytes);
    }
    assert(pending(bytes) == pending(rest));
    lemma_without_first_line_end(decode_utf8(bytes), line, end, decode_utf8(rest), ended, last);
}

/// The texts of the ended lines and of the unended rest of valid UTF-8, one after the other, are
/// the text of the stream without its line ends.
pub proof fn lemma_parts_of_text(bytes: Seq<u8>)
    requires
        valid_utf8(bytes),
    ensures
        decoded(complete_lines(bytes)).flatten() + decode_utf8(pending(bytes)) == without_line_ends(
            decode_utf8(bytes),
        ),
    decreases bytes.len(),
{
    if has_delimiter(bytes) {
        lemma_line_len(bytes);
        lemma_text_of_first_line(bytes);
        lemma_parts_of_text(after_first_line(bytes));
        lemma_parts_of_text_step(bytes);
    } else {
        lemma_line_len(bytes);
        lemma_text_of_one_line(bytes);
        assert(decoded(complete_lines(bytes)).flatten() == Seq::<char>::empty());
        assert(Seq::<char>::empty() + decode_utf8(bytes) == decode_utf8(bytes));
    }
}

/// The lines of valid UTF-8 are valid UTF-8, so that none of them is changed when it is decoded,
/// and their texts, one after the other, are the text of the stream without its line ends.
pub proof fn lemma_lines_of_text(bytes: Seq<u8>)
    requires
        valid_utf8(bytes),
    ensures
        all_valid(split_lines(bytes)),
        decoded(split_lines(bytes)).flatten() == without_line_ends(decode_utf8(bytes)),
{
    lemma_parts_are_valid(bytes);
    lemma_parts_of_text(bytes);
    let all = split_lines(bytes);
    let done = complete_lines(bytes);
    assert forall|k: int| 0 <= k < all.len() implies valid_utf8(#[trigger] all[k]) by {
        if k < done.len() {
            assert(all[k] == done[k]);
        }
    }
    if pending(bytes).len() > 0 {
        assert(decoded(all) == decoded(done).push(decode_utf8(pending(bytes))));
        decoded(done).lemma_flatten_push(decode_utf8(pending(bytes)));
    } else {
        assert(decode_utf8(pending(bytes)) == Seq::<char>::empty());
        assert(decoded(done).flatten() + Seq::<char>::empty() == decoded(done).flatten());
    }
}

/// The lines of an encoded text, one after the other, are the text without its line ends.
pub proof fn lemma_lines_of_encoded_text(text: Seq<char>)
    ensures
        decoded(split_lines(encode_utf8(text))).flatten() == without_line_ends(text),
{
    encode_utf8_valid_utf8(text);
    encode_utf8_decode_utf8(text);
    lemma_lines_of_text(encode_utf8(text));
}

} // verus!
