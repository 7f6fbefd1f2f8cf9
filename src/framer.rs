//! The line framer: accumulates bytes as they arrive and hands out complete lines.
use bytes::BytesMut;
use vstd::prelude::*;

verus! {

#[verifier::external_type_specification]
#[verifier::external_body]
pub struct ExBytesMut(BytesMut);

/// The bytes a `BytesMut` holds.
pub uninterp spec fn buffered(b: BytesMut) -> Seq<u8>;

/// Relies on `BytesMut::new`: a buffer that holds no bytes.
#[verifier::external_body]
fn empty_buffer() -> (r: BytesMut)
    ensures
        buffered(r) == Seq::<u8>::empty(),
{
    BytesMut::new()
}

/// Relies on `BytesMut::extend_from_slice`: the bytes of `chunk` are appended.
#[verifier::external_body]
fn append(b: &mut BytesMut, chunk: &[u8])
    requires
        buffered(*old(b)).len() + chunk@.len() <= isize::MAX,
    ensures
        buffered(*final(b)) == buffered(*old(b)) + chunk@,
{
    b.extend_from_slice(chunk)
}

/// Relies on `BytesMut`'s `Deref` to `[u8]`: the slice of the bytes it holds.
#[verifier::external_body]
fn contents(b: &BytesMut) -> (r: &[u8])
    ensures
        r@ == buffered(*b),
{
    &b[..]
}

/// Relies on `BytesMut::split_to`: the first `n` bytes leave the buffer and are returned.
#[verifier::external_body]
fn take_front(b: &mut BytesMut, n: usize) -> (r: Vec<u8>)
    requires
        n <= buffered(*old(b)).len(),
    ensures
        r@ == buffered(*old(b)).subrange(0, n as int),
        buffered(*final(b)) == buffered(*old(b)).subrange(n as int, buffered(*old(b)).len() as int),
{
    b.split_to(n).to_vec()
}

/// Relies on `Buf::advance` for `BytesMut`: the first `n` bytes are dropped.
#[verifier::external_body]
fn skip_front(b: &mut BytesMut, n: usize)
    requires
        n <= buffered(*old(b)).len(),
    ensures
        buffered(*final(b)) == buffered(*old(b)).subrange(n as int, buffered(*old(b)).len() as int),
{
    bytes::Buf::advance(b, n)
}

pub const LF: u8 = 10;

pub const CR: u8 = 13;

/// A line without the carriage return that may precede its line feed.
pub open spec fn strip_cr(line: Seq<u8>) -> Seq<u8> {
    if line.len() > 0 && line.last() == CR {
        line.drop_last()
    } else {
        line
    }
}

/// Reads `s` from the start: the complete lines in it, each without its terminator
/// (`"\n"` or `"\r\n"`), and the unterminated rest.
pub open spec fn scan_lines(s: Seq<u8>) -> (Seq<Seq<u8>>, Seq<u8>)
    decreases s.len(),
{
    if s.len() == 0 {
        (seq![], seq![])
    } else {
        let (ls, rest) = scan_lines(s.drop_last());
        if s.last() == LF {
            (ls.push(strip_cr(rest)), seq![])
        } else {
            (ls, rest.push(s.last()))
        }
    }
}

pub open spec fn complete_lines(s: Seq<u8>) -> Seq<Seq<u8>> {
    scan_lines(s).0
}

pub open spec fn partial_line(s: Seq<u8>) -> Seq<u8> {
    scan_lines(s).1
}

/// The first position at or after `i` that holds a line feed, or the end of `s`.
pub open spec fn lf_from(s: Seq<u8>, i: int) -> int
    decreases s.len() - i,
{
    if 0 <= i < s.len() && s[i] != LF {
        lf_from(s, i + 1)
    } else {
        i
    }
}

/// The first complete line of `s` and what follows its terminator, if `s` holds one.
pub open spec fn first_line(s: Seq<u8>) -> Option<(Seq<u8>, Seq<u8>)> {
    let j = lf_from(s, 0);
    if j < s.len() {
        Some((strip_cr(s.subrange(0, j)), s.subrange(j + 1, s.len() as int)))
    } else {
        None
    }
}

pub proof fn lemma_lf_from(s: Seq<u8>, i: int)
    requires
        0 <= i <= s.len(),
    ensures
        i <= lf_from(s, i) <= s.len(),
        forall|k: int| i <= k < lf_from(s, i) ==> #[trigger] s[k] != LF,
        lf_from(s, i) < s.len() ==> s[lf_from(s, i)] == LF,
    decreases s.len() - i,
{
    if i < s.len() && s[i] != LF {
        lemma_lf_from(s, i + 1);
    }
}

/// Bytes without a line feed hold no complete line: all of them are the partial line.
pub proof fn lemma_scan_without_lf(s: Seq<u8>)
    requires
        !s.contains(LF),
    ensures
        scan_lines(s) == (Seq::<Seq<u8>>::empty(), s),
    decreases s.len(),
{
    if s.len() > 0 {
        assert(!s.drop_last().contains(LF)) by {
            if s.drop_last().contains(LF) {
                let k = choose|k: int| 0 <= k < s.drop_last().len() && s.drop_last()[k] == LF;
                assert(s[k] == LF);
            }
        }
        lemma_scan_without_lf(s.drop_last());
        assert(s.last() != LF) by {
            assert(s[s.len() - 1] == s.last());
        }
        assert(s.drop_last().push(s.last()) =~= s);
    }
}

/// The partial line never holds a line feed.
pub proof fn lemma_partial_without_lf(s: Seq<u8>)
    ensures
        !partial_line(s).contains(LF),
    decreases s.len(),
{
    if s.len() > 0 {
        lemma_partial_without_lf(s.drop_last());
        let rest = partial_line(s.drop_last());
        if s.last() != LF {
            assert forall|k: int| 0 <= k < rest.push(s.last()).len() implies rest.push(
                s.last(),
            )[k] != LF by {
                if k < rest.len() {
                    assert(rest.push(s.last())[k] == rest[k]);
                }
            }
        }
    }
}

/// Reading `a` and then `b` finds the lines of `a`, then those of `a`'s partial line
/// followed by `b`.
pub proof fn lemma_scan_append(a: Seq<u8>, b: Seq<u8>)
    ensures
        complete_lines(a + b) == complete_lines(a) + complete_lines(partial_line(a) + b),
        partial_line(a + b) == partial_line(partial_line(a) + b),
    decreases b.len(),
{
    let r = partial_line(a);
    if b.len() == 0 {
        assert(a + b =~= a);
        assert(r + b =~= r);
        lemma_partial_without_lf(a);
        lemma_scan_without_lf(r);
        assert(complete_lines(a) + Seq::<Seq<u8>>::empty() =~= complete_lines(a));
    } else {
        let b1 = b.drop_last();
        lemma_scan_append(a, b1);
        assert((a + b).drop_last() =~= a + b1);
        assert((r + b).drop_last() =~= r + b1);
        assert((a + b).last() == b.last());
        assert((r + b).last() == b.last());
        if b.last() == LF {
            assert(complete_lines(a + b) =~= complete_lines(a) + complete_lines(r + b));
        }
    }
}

/// The lines that `first_line` hands out one at a time are the complete lines.
pub proof fn lemma_first_line(s: Seq<u8>)
    ensures
        match first_line(s) {
            Some((l, rest)) => complete_lines(s) == seq![l] + complete_lines(rest)
                && partial_line(s) == partial_line(rest),
            None => complete_lines(s) == Seq::<Seq<u8>>::empty() && partial_line(s) == s,
        },
{
    lemma_lf_from(s, 0);
    let j = lf_from(s, 0);
    let head = s.subrange(0, j);
    assert(!head.contains(LF)) by {
        if head.contains(LF) {
            let k = choose|k: int| 0 <= k < head.len() && head[k] == LF;
            assert(s[k] == LF);
        }
    }
    lemma_scan_without_lf(head);
    if j < s.len() {
        let a = s.subrange(0, j + 1);
        let rest = s.subrange(j + 1, s.len() as int);
        assert(a.drop_last() =~= head);
        assert(a.last() == LF);
        assert(scan_lines(a) == (seq![strip_cr(head)], Seq::<u8>::empty()));
        lemma_scan_append(a, rest);
        assert(a + rest =~= s);
        assert(Seq::<u8>::empty() + rest =~= rest);
    } else {
        assert(head =~= s);
    }
}

/// Accumulates the bytes of a stream and hands out its complete lines in order.
pub struct LineFramer {
    buf: BytesMut,
}

impl LineFramer {
    /// The bytes received and not yet handed out as part of a line.
    pub closed spec fn pending(&self) -> Seq<u8> {
        buffered(self.buf)
    }

    pub fn new() -> (r: LineFramer)
        ensures
            r.pending() == Seq::<u8>::empty(),
    {
        LineFramer { buf: empty_buffer() }
    }

    /// Appends a chunk as it was read; nothing is parsed here.
    pub fn feed(&mut self, chunk: &[u8])
        requires
            old(self).pending().len() + chunk@.len() <= isize::MAX,
        ensures
            final(self).pending() == old(self).pending() + chunk@,
    {
        append(&mut self.buf, chunk)
    }

    pub fn pending_len(&self) -> (r: usize)
        ensures
            r == self.pending().len(),
    {
        contents(&self.buf).len()
    }

    /// Hands out the first complete line, without its terminator, and drops it with its
    /// terminator from the buffer; `None`, and no change, when no line is complete.
    pub fn next_line(&mut self) -> (r: Option<Vec<u8>>)
        ensures
            match r {
                Some(line) => first_line(old(self).pending()) == Some((line@, final(self).pending())),
                None => first_line(old(self).pending()) is None && final(self).pending() == old(
                    self,
                ).pending(),
            },
            r matches Some(line) ==> !line@.contains(LF),
    {
        let data = contents(&self.buf);
        let n = data.len();
        let mut j: usize = 0;
        while j < n && data[j] != LF
            invariant
                n == data@.len(),
                data@ == buffered(self.buf),
                j <= n,
                lf_from(data@, j as int) == lf_from(data@, 0),
            decreases n - j,
        {
            j = j + 1;
        }
        proof {
            lemma_lf_from(data@, 0);
        }
        if j == n {
            return None;
        }
        let ghost p = data@;
        let line = if j > 0 && data[j - 1] == CR {
            let l = take_front(&mut self.buf, j - 1);
            skip_front(&mut self.buf, 2);
            assert(l@ =~= p.subrange(0, j as int).drop_last());
            l
        } else {
            let l = take_front(&mut self.buf, j);
            skip_front(&mut self.buf, 1);
            l
        };
        proof {
            assert(buffered(self.buf) =~= p.subrange(j + 1, p.len() as int));
            assert(line@ =~= strip_cr(p.subrange(0, j as int)));
            assert forall|k: int| 0 <= k < line@.len() implies line@[k] != LF by {
                assert(line@[k] == p[k]);
            }
        }
        Some(line)
    }

    /// Hands out all complete lines, in order, keeping the unterminated rest.
    pub fn take_lines(&mut self) -> (r: Vec<Vec<u8>>)
        ensures
            r@.map_values(|l: Vec<u8>| l@) == complete_lines(old(self).pending()),
            final(self).pending() == partial_line(old(self).pending()),
    {
        let mut lines: Vec<Vec<u8>> = Vec::new();
        let ghost start = self.pending();
        loop
            invariant
                start == old(self).pending(),
                lines@.map_values(|l: Vec<u8>| l@) + complete_lines(self.pending())
                    == complete_lines(start),
                partial_line(self.pending()) == partial_line(start),
            decreases self.pending().len(),
        {
            let ghost before = self.pending();
            proof {
                lemma_first_line(before);
                lemma_lf_from(before, 0);
            }
            match self.next_line() {
                None => {
                    assert(lines@.map_values(|l: Vec<u8>| l@) + Seq::<Seq<u8>>::empty()
                        =~= lines@.map_values(|l: Vec<u8>| l@));
                    return lines;
                },
                Some(line) => {
                    let ghost old_view = lines@.map_values(|l: Vec<u8>| l@);
                    lines.push(line);
                    assert(lines@.map_values(|l: Vec<u8>| l@) =~= old_view.push(line@));
                    assert(old_view + complete_lines(before) =~= lines@.map_values(
                        |l: Vec<u8>| l@,
                    ) + complete_lines(self.pending()));
                },
            }
        }
    }
}

/// The lines handed out when each chunk in turn is fed and the complete lines are
/// taken, starting with `pending` buffered.
pub open spec fn lines_fed(pending: Seq<u8>, chunks: Seq<Seq<u8>>) -> Seq<Seq<u8>>
    decreases chunks.len(),
{
    if chunks.len() == 0 {
        seq![]
    } else {
        complete_lines(pending + chunks[0]) + lines_fed(
            partial_line(pending + chunks[0]),
            chunks.drop_first(),
        )
    }
}

/// Where a stream is cut into chunks does not change its lines: feeding the chunks one at
/// a time, taking the complete lines after each, yields the lines of the whole stream.
pub proof fn lemma_chunk_boundaries(chunks: Seq<Seq<u8>>)
    ensures
        lines_fed(Seq::<u8>::empty(), chunks) == complete_lines(chunks.flatten()),
{
    lemma_lines_fed(Seq::<u8>::empty(), chunks);
    assert(Seq::<u8>::empty() + chunks.flatten() =~= chunks.flatten());
}

proof fn lemma_lines_fed(pending: Seq<u8>, chunks: Seq<Seq<u8>>)
    requires
        !pending.contains(LF),
    ensures
        lines_fed(pending, chunks) == complete_lines(pending + chunks.flatten()),
    decreases chunks.len(),
{
    if chunks.len() == 0 {
        lemma_scan_without_lf(pending);
        assert(pending + chunks.flatten() =~= pending);
    } else {
        let a = pending + chunks[0];
        let rest = chunks.drop_first().flatten();
        lemma_partial_without_lf(a);
        lemma_lines_fed(partial_line(a), chunks.drop_first());
        lemma_scan_append(a, rest);
        assert(a + rest =~= pending + chunks.flatten());
    }
}

} // verus!
