use vstd::prelude::*;

use crate::progress_lines::{
    complete_lines, has_delimiter, is_delimiter, lemma_line_len, lemma_line_len_is, lemma_pending,
    lemma_push_content, lemma_push_delimiter, lemma_split_in_pieces, pending, split_lines,
};

verus! {

/// `bytes` with every delimiter taken out.
pub open spec fn without_delimiters(bytes: Seq<u8>) -> Seq<u8> {
    bytes.filter(|byte: u8| !is_delimiter(byte))
}

/// How many delimiters `bytes` holds.
pub open spec fn delimiter_count(bytes: Seq<u8>) -> nat {
    bytes.filter(|byte: u8| is_delimiter(byte)).len()
}

/// The lines written out one after the other, each followed by `delimiter`.
pub open spec fn join_lines(lines: Seq<Seq<u8>>, delimiter: u8) -> Seq<u8>
    decreases lines.len(),
{
    if lines.len() == 0 {
        Seq::empty()
    } else {
        join_lines(lines.drop_last(), delimiter) + lines.last().push(delimiter)
    }
}

/// Whether no line of `lines` holds a delimiter.
pub open spec fn delimiter_free(lines: Seq<Seq<u8>>) -> bool {
    forall|k: int, i: int|
        0 <= k < lines.len() && 0 <= i < lines[k].len() ==> !is_delimiter(#[trigger] lines[k][i])
}

/// How the last byte of a stream adds to what came before it: a delimiter ends the pending
/// line, any other byte lengthens it.
pub proof fn lemma_last_byte(bytes: Seq<u8>)
    requires
        bytes.len() > 0,
    ensures
        is_delimiter(bytes.last()) ==> complete_lines(bytes) == complete_lines(
            bytes.drop_last(),
        ).push(pending(bytes.drop_last())) && pending(bytes) == Seq::<u8>::empty(),
        !is_delimiter(bytes.last()) ==> complete_lines(bytes) == complete_lines(bytes.drop_last())
            && pending(bytes) == pending(bytes.drop_last()).push(bytes.last()),
{
    assert(bytes == bytes.drop_last().push(bytes.last()));
    if is_delimiter(bytes.last()) {
        lemma_push_delimiter(bytes.drop_last(), bytes.last());
    } else {
        lemma_push_content(bytes.drop_last(), bytes.last());
    }
}

/// An empty stream has no line at all, and only an empty stream has none.
pub proof fn lemma_empty_stream(bytes: Seq<u8>)
    ensures
        split_lines(Seq::<u8>::empty()) == Seq::<Seq<u8>>::empty(),
        split_lines(bytes).len() == 0 <==> bytes.len() == 0,
{
    lemma_line_len(bytes);
    assert(pending(Seq::<u8>::empty()) == Seq::<u8>::empty());
    assert(complete_lines(Seq::<u8>::empty()) == Seq::<Seq<u8>>::empty());
}

/// A stream that does not end in a delimiter still gives its last, unended content as its last
/// line: the bytes behind the last delimiter, which are not empty.
pub proof fn lemma_unended_last_line(bytes: Seq<u8>)
    requires
        bytes.len() > 0,
        !is_delimiter(bytes.last()),
    ensures
        split_lines(bytes).len() > 0,
        split_lines(bytes).last() == pending(bytes),
        pending(bytes).len() > 0,
        pending(bytes) == bytes.skip(bytes.len() - pending(bytes).len()),
{
    lemma_last_byte(bytes);
    lemma_pending(bytes);
}

/// A stream that ends in a delimiter gives no empty line after it.
pub proof fn lemma_no_line_after_last_delimiter(bytes: Seq<u8>)
    requires
        bytes.len() > 0,
        is_delimiter(bytes.last()),
    ensures
        split_lines(bytes) == complete_lines(bytes),
        split_lines(bytes).last() == pending(bytes.drop_last()),
{
    lemma_last_byte(bytes);
}

/// No line holds a delimiter.
pub proof fn lemma_lines_are_delimiter_free(bytes: Seq<u8>)
    ensures
        delimiter_free(complete_lines(bytes)),
        delimiter_free(split_lines(bytes)),
    decreases bytes.len(),
{
    lemma_pending(bytes);
    if bytes.len() > 0 {
        let front = bytes.drop_last();
        lemma_last_byte(bytes);
        lemma_lines_are_delimiter_free(front);
        lemma_pending(front);
        let done = complete_lines(bytes);
        assert forall|k: int, i: int| 0 <= k < done.len() && 0 <= i < done[k].len() implies
            !is_delimiter(#[trigger] done[k][i]) by {
            if k < complete_lines(front).len() {
                assert(done[k] == complete_lines(front)[k]);
            } else {
                assert(done[k] == pending(front));
            }
        }
    } else {
        assert(complete_lines(bytes) == Seq::<Seq<u8>>::empty());
    }
    let all = split_lines(bytes);
    let done = complete_lines(bytes);
    assert forall|k: int, i: int| 0 <= k < all.len() && 0 <= i < all[k].len() implies
        !is_delimiter(#[trigger] all[k][i]) by {
        if k < done.len() {
            assert(all[k] == done[k]);
        } else {
            assert(all[k] == pending(bytes));
        }
    }
}

/// The lines, written one after the other, are the stream with its delimiters taken out.
pub proof fn lemma_lines_keep_content(bytes: Seq<u8>)
    ensures
        complete_lines(bytes).flatten() + pending(bytes) == without_delimiters(bytes),
        split_lines(bytes).flatten() == without_delimiters(bytes),
    decreases bytes.len(),
{
    let keep = |byte: u8| !is_delimiter(byte);
    if bytes.len() > 0 {
        let front = bytes.drop_last();
        let last = bytes.last();
        lemma_last_byte(bytes);
        lemma_lines_keep_content(front);
        assert(bytes == front.push(last));
        front.lemma_filter_push(last, keep);
        complete_lines(front).lemma_flatten_push(pending(front));
        if is_delimiter(last) {
            assert(complete_lines(bytes).flatten() + pending(bytes) == complete_lines(
                front,
            ).flatten() + pending(front));
        } else {
            assert(complete_lines(bytes).flatten() + pending(bytes) == (complete_lines(
                front,
            ).flatten() + pending(front)).push(last));
        }
    } else {
        reveal(Seq::filter);
        assert(complete_lines(bytes) == Seq::<Seq<u8>>::empty());
        assert(complete_lines(bytes).flatten() + pending(bytes) == Seq::<u8>::empty());
        assert(without_delimiters(bytes) == Seq::<u8>::empty());
    }
    if pending(bytes).len() > 0 {
        complete_lines(bytes).lemma_flatten_push(pending(bytes));
    } else {
        assert(complete_lines(bytes).flatten() + pending(bytes) == complete_lines(
            bytes,
        ).flatten());
    }
}

/// There is one ended line for each delimiter, and one more line where the stream does not end
/// in a delimiter.
pub proof fn lemma_line_count(bytes: Seq<u8>)
    ensures
        complete_lines(bytes).len() == delimiter_count(bytes),
        split_lines(bytes).len() == delimiter_count(bytes) + if bytes.len() > 0 && !is_delimiter(
            bytes.last(),
        ) {
            1nat
        } else {
            0nat
        },
    decreases bytes.len(),
{
    let ends = |byte: u8| is_delimiter(byte);
    if bytes.len() > 0 {
        let front = bytes.drop_last();
        lemma_last_byte(bytes);
        lemma_line_count(front);
        assert(bytes == front.push(bytes.last()));
        front.lemma_filter_len_push(ends, bytes.last());
    } else {
        reveal(Seq::filter);
        assert(complete_lines(bytes) == Seq::<Seq<u8>>::empty());
        assert(pending(bytes) == Seq::<u8>::empty());
    }
}

/// The line that the delimiter at position `at` ends is the content that stands between it and
/// the delimiter before it; it is the line numbered by the delimiters that come before `at`.
pub proof fn lemma_line_before_delimiter(bytes: Seq<u8>, at: int)
    requires
        0 <= at < bytes.len(),
        is_delimiter(bytes[at]),
    ensures
        delimiter_count(bytes.take(at)) < split_lines(bytes).len(),
        split_lines(bytes)[delimiter_count(bytes.take(at)) as int] == pending(bytes.take(at)),
{
    let front = bytes.take(at + 1);
    let back = bytes.skip(at + 1);
    let number = delimiter_count(bytes.take(at)) as int;
    assert(front.drop_last() == bytes.take(at));
    assert(front.last() == bytes[at]);
    lemma_last_byte(front);
    lemma_line_count(bytes.take(at));
    assert(complete_lines(front)[number] == pending(bytes.take(at)));
    lemma_split_in_pieces(front, back);
    assert(bytes == front + back);
    assert(complete_lines(bytes)[number] == complete_lines(front)[number]);
}

/// Two delimiters side by side, such as a carriage return and the line feed after it, give an
/// empty line between them.
pub proof fn lemma_empty_line_between_delimiters(bytes: Seq<u8>, at: int)
    requires
        0 <= at,
        at + 1 < bytes.len(),
        is_delimiter(bytes[at]),
        is_delimiter(bytes[at + 1]),
    ensures
        delimiter_count(bytes.take(at + 1)) < split_lines(bytes).len(),
        split_lines(bytes)[delimiter_count(bytes.take(at + 1)) as int] == Seq::<u8>::empty(),
{
    let front = bytes.take(at + 1);
    lemma_line_before_delimiter(bytes, at + 1);
    assert(front.last() == bytes[at]);
    lemma_last_byte(front);
}

/// Lines that hold no delimiter come back unchanged when they are joined with a delimiter and
/// split again, and nothing is left pending behind them.
pub proof fn lemma_split_of_join(lines: Seq<Seq<u8>>, delimiter: u8)
    requires
        is_delimiter(delimiter),
        delimiter_free(lines),
    ensures
        complete_lines(join_lines(lines, delimiter)) == lines,
        pending(join_lines(lines, delimiter)) == Seq::<u8>::empty(),
        split_lines(join_lines(lines, delimiter)) == lines,
    decreases lines.len(),
{
    if lines.len() == 0 {
        assert(pending(Seq::<u8>::empty()) == Seq::<u8>::empty());
        assert(complete_lines(Seq::<u8>::empty()) == Seq::<Seq<u8>>::empty());
    } else {
        let front = lines.drop_last();
        let last = lines.last();
        assert forall|k: int, i: int| 0 <= k < front.len() && 0 <= i < front[k].len() implies
            !is_delimiter(#[trigger] front[k][i]) by {
            assert(front[k] == lines[k]);
        }
        lemma_split_of_join(front, delimiter);
        assert forall|i: int| 0 <= i < last.len() implies !is_delimiter(#[trigger] last[i]) by {
            assert(last == lines[lines.len() - 1]);
        }
        lemma_line_len_is(last, last.len() as int);
        lemma_push_delimiter(last, delimiter);
        assert(complete_lines(last) == Seq::<Seq<u8>>::empty());
        assert(complete_lines(last.push(delimiter)) == seq![last]);
        lemma_split_in_pieces(join_lines(front, delimiter), last.push(delimiter));
        assert(Seq::<u8>::empty() + last.push(delimiter) == last.push(delimiter));
        assert(front + seq![last] == lines);
    }
}

/// Joining the lines of a stream again, with whichever delimiter, and splitting the result gives
/// the same lines, and the joined stream holds the content of the first: what differs is the
/// delimiters alone.
pub proof fn lemma_join_round_trip(bytes: Seq<u8>, delimiter: u8)
    requires
        is_delimiter(delimiter),
    ensures
        split_lines(join_lines(split_lines(bytes), delimiter)) == split_lines(bytes),
        without_delimiters(join_lines(split_lines(bytes), delimiter)) == without_delimiters(bytes),
{
    let joined = join_lines(split_lines(bytes), delimiter);
    lemma_lines_are_delimiter_free(bytes);
    lemma_split_of_join(split_lines(bytes), delimiter);
    lemma_lines_keep_content(bytes);
    lemma_lines_keep_content(joined);
}

} // verus!
