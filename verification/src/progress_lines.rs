use std::collections::VecDeque;

use vstd::prelude::*;

use crate::text::{decode_lossy, lossy_text};

verus! {

/// Whether `byte` ends a line: a line feed or a carriage return, each on its own.
pub open spec fn is_delimiter(byte: u8) -> bool {
    byte == 0x0a || byte == 0x0d
}

/// How many bytes of `bytes` come before its first delimiter; its whole length where it holds
/// none.
pub open spec fn line_len(bytes: Seq<u8>) -> nat
    decreases bytes.len(),
{
    if bytes.len() == 0 || is_delimiter(bytes[0]) {
        0
    } else {
        1 + line_len(bytes.skip(1))
    }
}

/// Whether `bytes` holds a delimiter.
pub open spec fn has_delimiter(bytes: Seq<u8>) -> bool {
    line_len(bytes) < bytes.len()
}

/// The bytes before the first delimiter of `bytes`, or all of them where it holds none.
pub open spec fn first_line(bytes: Seq<u8>) -> Seq<u8> {
    bytes.take(line_len(bytes) as int)
}

/// What is left of `bytes` once its first line has gone, together with the delimiter that ended it.
pub open spec fn after_first_line(bytes: Seq<u8>) -> Seq<u8> {
    if has_delimiter(bytes) {
        bytes.skip(line_len(bytes) as int + 1)
    } else {
        Seq::empty()
    }
}

/// The lines of `bytes` that a delimiter ends, in order.
pub open spec fn complete_lines(bytes: Seq<u8>) -> Seq<Seq<u8>>
    decreases bytes.len(),
{
    if has_delimiter(bytes) {
        seq![first_line(bytes)] + complete_lines(after_first_line(bytes))
    } else {
        Seq::empty()
    }
}

/// The bytes of `bytes` behind its last delimiter: a line that nothing has ended yet.
pub open spec fn pending(bytes: Seq<u8>) -> Seq<u8>
    decreases bytes.len(),
{
    if has_delimiter(bytes) {
        pending(after_first_line(bytes))
    } else {
        bytes
    }
}

/// The lines of a whole stream: those that a delimiter ends, then the unended rest if there is any.
pub open spec fn split_lines(bytes: Seq<u8>) -> Seq<Seq<u8>> {
    if pending(bytes).len() > 0 {
        complete_lines(bytes).push(pending(bytes))
    } else {
        complete_lines(bytes)
    }
}

/// The lines that can be handed out of `bytes`: all of them once the stream is `closed`, only the
/// ended ones while more bytes may follow.
pub open spec fn ready_lines(bytes: Seq<u8>, closed: bool) -> Seq<Seq<u8>> {
    if closed {
        split_lines(bytes)
    } else {
        complete_lines(bytes)
    }
}

/// Each line decoded lossily.
pub open spec fn decoded(lines: Seq<Seq<u8>>) -> Seq<Seq<char>> {
    lines.map_values(|line: Seq<u8>| lossy_text(line))
}

/// `line_len` stays within the sequence, passes no delimiter and stops at one.
pub proof fn lemma_line_len(bytes: Seq<u8>)
    ensures
        line_len(bytes) <= bytes.len(),
        forall|i: int| 0 <= i < line_len(bytes) ==> !is_delimiter(#[trigger] bytes[i]),
        has_delimiter(bytes) ==> is_delimiter(bytes[line_len(bytes) as int]),
    decreases bytes.len(),
{
    if bytes.len() == 0 || is_delimiter(bytes[0]) {
    } else {
        let rest = bytes.skip(1);
        lemma_line_len(rest);
        assert forall|i: int| 0 <= i < line_len(bytes) implies !is_delimiter(#[trigger] bytes[i]) by {
            if i > 0 {
                assert(bytes[i] == rest[i - 1]);
            }
        }
        if has_delimiter(bytes) {
            assert(bytes[line_len(bytes) as int] == rest[line_len(rest) as int]);
        }
    }
}

/// A position `n` that no delimiter precedes, and that either ends the sequence or holds a
/// delimiter, is `line_len`.
pub proof fn lemma_line_len_is(bytes: Seq<u8>, n: int)
    requires
        0 <= n <= bytes.len(),
        forall|i: int| 0 <= i < n ==> !is_delimiter(#[trigger] bytes[i]),
        n < bytes.len() ==> is_delimiter(bytes[n]),
    ensures
        line_len(bytes) == n,
{
    lemma_line_len(bytes);
    let m = line_len(bytes) as int;
    if m < n {
        assert(!is_delimiter(bytes[m]));
    } else if n < m {
        assert(is_delimiter(bytes[n]));
    }
}

/// Appending to a sequence changes nothing before its first delimiter.
pub proof fn lemma_first_line_of_concat(front: Seq<u8>, back: Seq<u8>)
    requires
        has_delimiter(front),
    ensures
        has_delimiter(front + back),
        first_line(front + back) == first_line(front),
        after_first_line(front + back) == after_first_line(front) + back,
{
    lemma_line_len(front);
    let n = line_len(front) as int;
    let whole = front + back;
    assert forall|i: int| 0 <= i < n implies !is_delimiter(#[trigger] whole[i]) by {
        assert(whole[i] == front[i]);
    }
    assert(whole[n] == front[n]);
    lemma_line_len_is(whole, n);
    assert(whole.take(n) == front.take(n));
    assert(whole.skip(n + 1) == front.skip(n + 1) + back);
}

/// Splitting can go piece by piece: the lines that end within `front + back` are those that end
/// within `front`, then those of the unended rest of `front` followed by `back`; and the same
/// rest is left behind either way.
pub proof fn lemma_split_in_pieces(front: Seq<u8>, back: Seq<u8>)
    ensures
        complete_lines(front + back) == complete_lines(front) + complete_lines(
            pending(front) + back,
        ),
        pending(front + back) == pending(pending(front) + back),
    decreases front.len(),
{
    if has_delimiter(front) {
        lemma_line_len(front);
        lemma_first_line_of_concat(front, back);
        let rest = after_first_line(front);
        lemma_split_in_pieces(rest, back);
        assert(complete_lines(front + back) == seq![first_line(front)] + (complete_lines(rest)
            + complete_lines(pending(rest) + back)));
        assert(complete_lines(front + back) == complete_lines(front) + complete_lines(
            pending(front) + back,
        ));
    } else {
        assert(complete_lines(front) + complete_lines(front + back) == complete_lines(
            front + back,
        ));
    }
}

/// The unended rest holds no delimiter, and is what stands behind the last one.
pub proof fn lemma_pending(bytes: Seq<u8>)
    ensures
        !has_delimiter(pending(bytes)),
        pending(bytes).len() <= bytes.len(),
        pending(bytes) == bytes.skip(bytes.len() - pending(bytes).len()),
        forall|i: int| 0 <= i < pending(bytes).len() ==> !is_delimiter(#[trigger] pending(bytes)[i]),
        pending(bytes).len() < bytes.len() ==> is_delimiter(
            bytes[bytes.len() - pending(bytes).len() - 1],
        ),
    decreases bytes.len(),
{
    lemma_line_len(bytes);
    if has_delimiter(bytes) {
        let n = line_len(bytes) as int;
        let rest = after_first_line(bytes);
        lemma_pending(rest);
        let k = pending(rest).len() as int;
        assert(rest.skip(rest.len() - k) == bytes.skip(bytes.len() - k));
        if k < rest.len() {
            assert(rest[rest.len() - k - 1] == bytes[bytes.len() - k - 1]);
        }
    } else {
        assert(bytes.skip(0) == bytes);
    }
}

/// A delimiter at the end of the stream ends the line that was pending.
pub proof fn lemma_push_delimiter(bytes: Seq<u8>, byte: u8)
    requires
        is_delimiter(byte),
    ensures
        complete_lines(bytes.push(byte)) == complete_lines(bytes).push(pending(bytes)),
        pending(bytes.push(byte)) == Seq::<u8>::empty(),
{
    let tail = pending(bytes) + seq![byte];
    lemma_pending(bytes);
    lemma_split_in_pieces(bytes, seq![byte]);
    assert(bytes.push(byte) == bytes + seq![byte]);
    let n = pending(bytes).len() as int;
    assert forall|i: int| 0 <= i < n implies !is_delimiter(#[trigger] tail[i]) by {
        assert(tail[i] == pending(bytes)[i]);
    }
    lemma_line_len_is(tail, n);
    assert(first_line(tail) == pending(bytes));
    assert(after_first_line(tail) == Seq::<u8>::empty());
    assert(complete_lines(Seq::<u8>::empty()) == Seq::<Seq<u8>>::empty());
    assert(complete_lines(tail) == seq![pending(bytes)]);
    assert(pending(Seq::<u8>::empty()) == Seq::<u8>::empty());
    assert(pending(tail) == Seq::<u8>::empty());
    assert(complete_lines(bytes) + seq![pending(bytes)] == complete_lines(bytes).push(
        pending(bytes),
    ));
}

/// Any other byte at the end of the stream lengthens the line that is pending.
pub proof fn lemma_push_content(bytes: Seq<u8>, byte: u8)
    requires
        !is_delimiter(byte),
    ensures
        complete_lines(bytes.push(byte)) == complete_lines(bytes),
        pending(bytes.push(byte)) == pending(bytes).push(byte),
{
    let tail = pending(bytes) + seq![byte];
    lemma_pending(bytes);
    lemma_split_in_pieces(bytes, seq![byte]);
    assert(bytes.push(byte) == bytes + seq![byte]);
    assert(tail == pending(bytes).push(byte));
    assert forall|i: int| 0 <= i < tail.len() implies !is_delimiter(#[trigger] tail[i]) by {
        if i < pending(bytes).len() {
            assert(tail[i] == pending(bytes)[i]);
        }
    }
    lemma_line_len_is(tail, tail.len() as int);
    assert(complete_lines(bytes) + Seq::<Seq<u8>>::empty() == complete_lines(bytes));
}

/// What the first line taken from a stream leaves to be handed out: the other lines.
pub proof fn lemma_ready_lines(bytes: Seq<u8>, closed: bool)
    ensures
        has_delimiter(bytes) || (closed && bytes.len() > 0) ==> ready_lines(bytes, closed)
            == seq![first_line(bytes)] + ready_lines(after_first_line(bytes), closed),
        !(has_delimiter(bytes) || (closed && bytes.len() > 0)) ==> ready_lines(bytes, closed)
            == Seq::<Seq<u8>>::empty(),
{
    lemma_line_len(bytes);
    let rest = after_first_line(bytes);
    if has_delimiter(bytes) {
        if pending(bytes).len() > 0 {
            assert((seq![first_line(bytes)] + complete_lines(rest)).push(pending(rest)) == seq![
                first_line(bytes),
            ] + complete_lines(rest).push(pending(rest)));
        }
    } else if closed && bytes.len() > 0 {
        assert(first_line(bytes) == bytes);
        assert(Seq::<Seq<u8>>::empty().push(bytes) == seq![bytes] + Seq::<Seq<u8>>::empty());
    }
}

/// A splitter of a byte stream into lines, where a line feed and a carriage return each end a
/// line. The stream may be given whole, or arrive in pieces.
pub struct ProgressLines {
    reader: VecDeque<u8>,
    closed: bool,
}

impl ProgressLines {
    /// The bytes that have come in and have not left as a line yet.
    pub closed spec fn remaining(&self) -> Seq<u8> {
        self.reader@
    }

    /// Whether the stream has ended: no more bytes will come.
    pub closed spec fn closed(&self) -> bool {
        self.closed
    }

    /// Whether a line can be handed out: one that a delimiter ends, or the unended rest of a
    /// stream that has ended.
    pub open spec fn line_ready(&self) -> bool {
        has_delimiter(self.remaining()) || (self.closed() && self.remaining().len() > 0)
    }

    /// A splitter over a stream that is held whole in `reader`.
    pub fn new(reader: &[u8]) -> (lines: Self)
        ensures
            lines.remaining() == reader@,
            lines.closed(),
    {
        let mut lines = ProgressLines { reader: VecDeque::new(), closed: true };
        lines.feed(reader);
        assert(Seq::<u8>::empty() + reader@ == reader@);
        lines
    }

    /// A splitter over a stream of which nothing has arrived yet.
    pub fn open() -> (lines: Self)
        ensures
            lines.remaining() == Seq::<u8>::empty(),
            !lines.closed(),
    {
        ProgressLines { reader: VecDeque::new(), closed: false }
    }

    /// Takes in the next piece of the stream.
    pub fn feed(&mut self, bytes: &[u8])
        ensures
            final(self).remaining() == old(self).remaining() + bytes@,
            final(self).closed() == old(self).closed(),
    {
        let mut i: usize = 0;
        while i < bytes.len()
            invariant
                i <= bytes.len(),
                self.closed == old(self).closed,
                self.reader@ == old(self).reader@ + bytes@.take(i as int),
            decreases bytes.len() - i,
        {
            self.reader.push_back(bytes[i]);
            i = i + 1;
            assert(bytes@.take(i as int) == bytes@.take(i - 1).push(bytes@[i - 1]));
        }
        assert(bytes@.take(bytes.len() as int) == bytes@);
    }

    /// Marks the end of the stream: what is left unended counts as its last line.
    pub fn close(&mut self)
        ensures
            final(self).remaining() == old(self).remaining(),
            final(self).closed(),
    {
        self.closed = true;
    }

    /// Tells whether a line can be handed out.
    pub fn has_line(&self) -> (ready: bool)
        ensures
            ready == self.line_ready(),
    {
        let len = self.reader.len();
        let mut end: usize = 0;
        while end < len && !(self.reader[end] == 0x0a || self.reader[end] == 0x0d)
            invariant
                end <= len == self.reader@.len(),
                forall|k: int| 0 <= k < end ==> !is_delimiter(#[trigger] self.reader@[k]),
            decreases len - end,
        {
            end = end + 1;
        }
        proof {
            lemma_line_len_is(self.reader@, end as int);
        }
        end < len || (self.closed && len > 0)
    }

    /// Appends to `buf` the bytes up to the first delimiter, or all that is left where there is
    /// none, and drops them from the stream together with that delimiter. Tells whether a
    /// delimiter was found.
    pub fn read_until_delimiter(&mut self, buf: &mut Vec<u8>) -> (found: bool)
        ensures
            found == has_delimiter(old(self).remaining()),
            final(buf)@ == old(buf)@ + first_line(old(self).remaining()),
            final(self).remaining() == after_first_line(old(self).remaining()),
            final(self).closed() == old(self).closed(),
    {
        let ghost all = self.reader@;
        let ghost mut taken: int = 0;
        loop
            invariant
                self.closed == old(self).closed,
                all == old(self).reader@,
                0 <= taken <= all.len(),
                self.reader@ == all.skip(taken),
                buf@ == old(buf)@ + all.take(taken),
                forall|k: int| 0 <= k < taken ==> !is_delimiter(#[trigger] all[k]),
            decreases self.reader@.len(),
        {
            match self.reader.pop_front() {
                None => {
                    proof {
                        lemma_line_len_is(all, taken);
                        assert(all.take(taken) == all);
                    }
                    return false;
                },
                Some(byte) => {
                    assert(byte == all[taken]);
                    assert(self.reader@ == all.skip(taken + 1));
                    if byte == 0x0a || byte == 0x0d {
                        proof {
                            lemma_line_len_is(all, taken);
                        }
                        return true;
                    }
                    buf.push(byte);
                    proof {
                        assert(all.take(taken + 1) == all.take(taken).push(byte));
                        taken = taken + 1;
                    }
                },
            }
        }
    }

    /// The next line, decoded lossily, where one is ready; `None`, and nothing changed, where
    /// the stream holds no line yet or has been read to its end.
    pub fn next(&mut self) -> (line: Option<String>)
        ensures
            line is Some <==> old(self).line_ready(),
            line matches Some(text) ==> text@ == lossy_text(first_line(old(self).remaining()))
                && final(self).remaining() == after_first_line(old(self).remaining()),
            line is None ==> final(self).remaining() == old(self).remaining(),
            final(self).closed() == old(self).closed(),
    {
        if self.has_line() {
            let mut buf: Vec<u8> = Vec::new();
            self.read_until_delimiter(&mut buf);
            assert(buf@ == first_line(old(self).remaining()));
            Some(decode_lossy(buf.as_slice()))
        } else {
            None
        }
    }

    /// All the lines that are ready, in order, each decoded lossily.
    pub fn collect(self) -> (lines: Vec<String>)
        ensures
            lines.deep_view() == decoded(ready_lines(self.remaining(), self.closed())),
    {
        let mut splitter = self;
        let mut lines: Vec<String> = Vec::new();
        loop
            invariant
                splitter.closed() == self.closed(),
                lines.deep_view() + decoded(ready_lines(splitter.remaining(), splitter.closed()))
                    == decoded(ready_lines(self.remaining(), self.closed())),
            ensures
                lines.deep_view() == decoded(ready_lines(self.remaining(), self.closed())),
            decreases splitter.remaining().len(),
        {
            let ghost before = splitter.remaining();
            let ghost taken = lines.deep_view();
            proof {
                lemma_ready_lines(before, self.closed());
                lemma_line_len(before);
            }
            match splitter.next() {
                Some(text) => {
                    lines.push(text);
                    proof {
                        let rest = ready_lines(after_first_line(before), self.closed());
                        assert(lines.deep_view() == taken.push(lossy_text(first_line(before))));
                        assert(decoded(seq![first_line(before)] + rest) == seq![
                            lossy_text(first_line(before)),
                        ] + decoded(rest));
                        assert(taken.push(lossy_text(first_line(before))) + decoded(rest) == taken
                            + (seq![lossy_text(first_line(before))] + decoded(rest)));
                    }
                },
                None => {
                    proof {
                        assert(lines.deep_view() + decoded(Seq::<Seq<u8>>::empty())
                            == lines.deep_view());
                    }
                    break ;
                },
            }
        }
        lines
    }
}

} // verus!
