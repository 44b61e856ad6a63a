//! A capacity-bounded, append-only sequence of finalized text lines.
//!
//! `LogStream` accepts arbitrary byte-oriented writes, decodes them as text
//! (tolerating invalid sequences via lossy replacement), truncates on
//! character boundaries when the remaining byte budget is too small, and
//! keeps a running total of the stored lines' byte lengths.

use vstd::prelude::*;
use vstd::string::*;
use vstd::utf8::*;

verus! {

/// Byte capacity a stream built with `Default` gets.
pub const MAX_BOUNDED_LOG_BYTESIZE: usize = 1024;

/// Byte length of the truncation marker `"...[TRUNCATED]"` (14 ASCII characters).
pub const TRUNCATION_MARKER_BYTES: usize = 14;

/// The characters of the marker appended to every truncated line.
pub open spec fn marker_chars() -> Seq<char> {
    "...[TRUNCATED]"@
}

/// Mathematical model of a `LogStream`: the stored lines as character
/// sequences, the fixed byte capacity, and the running byte total.
#[verifier::ext_equal]
pub ghost struct LogModel {
    pub lines: Seq<Seq<char>>,
    pub capacity: nat,
    pub current: nat,
}

/// UTF-8 byte length of a character sequence.
pub open spec fn byte_len(s: Seq<char>) -> nat {
    encode_utf8(s).len()
}

/// Sum of the UTF-8 byte lengths of all lines.
pub open spec fn total_byte_len(lines: Seq<Seq<char>>) -> nat
    decreases lines.len(),
{
    if lines.len() == 0 {
        0
    } else {
        total_byte_len(lines.drop_last()) + byte_len(lines.last())
    }
}

pub struct LogStream {
    logs: Vec<String>,
    capacity: usize,
    current_bytesize: usize,
}

impl View for LogStream {
    type V = LogModel;

    closed spec fn view(&self) -> LogModel {
        LogModel {
            lines: Seq::new(self.logs@.len(), |i: int| self.logs@[i]@),
            capacity: self.capacity as nat,
            current: self.current_bytesize as nat,
        }
    }
}

impl LogStream {
    /// Well-formedness: the byte counter equals the sum of the stored lines'
    /// byte lengths, the capacity leaves room in `usize` for one truncation
    /// marker, and the counter never runs more than one marker past the
    /// capacity.
    pub open spec fn wf(&self) -> bool {
        &&& self@.current == total_byte_len(self@.lines)
        &&& self@.capacity <= usize::MAX - TRUNCATION_MARKER_BYTES
        &&& self@.current <= self@.capacity + TRUNCATION_MARKER_BYTES
    }

    /// An empty stream with the given byte capacity.
    ///
    /// The capacity must leave room in `usize` for the truncation marker a
    /// single over-budget write may add past the capacity.
    pub fn with_capacity(capacity: usize) -> (r: Self)
        requires
            capacity <= usize::MAX - TRUNCATION_MARKER_BYTES,
        ensures
            r.wf(),
            r@.lines == Seq::<Seq<char>>::empty(),
            r@.capacity == capacity,
            r@.current == 0,
    {
        let r = LogStream { logs: Vec::new(), capacity, current_bytesize: 0 };
        proof {
            assert(r@.lines =~= Seq::<Seq<char>>::empty());
        }
        r
    }
}

impl Default for LogStream {
    /// An empty stream with the default byte capacity.
    fn default() -> (r: Self)
        ensures
            r.wf(),
            r@.lines == Seq::<Seq<char>>::empty(),
            r@.capacity == MAX_BOUNDED_LOG_BYTESIZE,
            r@.current == 0,
    {
        LogStream::with_capacity(MAX_BOUNDED_LOG_BYTESIZE)
    }
}

/// What `String::from_utf8_lossy` decodes the given bytes to: its result
/// depends on the bytes alone.
pub uninterp spec fn lossy_decode(bytes: Seq<u8>) -> Seq<char>;

/// Relies on `String::from_utf8_lossy`: it decodes the bytes as UTF-8,
/// replacing invalid sequences, so a valid UTF-8 input decodes exactly, an
/// empty input gives an empty result, and the result's byte length fits in
/// `usize` because it is the length of a `String`.
#[verifier::external_body]
fn decode_lossy(buf: &[u8]) -> (r: String)
    ensures
        r@ == lossy_decode(buf@),
        valid_utf8(buf@) ==> r@ == decode_utf8(buf@),
        buf@.len() == 0 ==> r@.len() == 0,
        encode_utf8(r@).len() <= usize::MAX,
{
    String::from_utf8_lossy(buf).into_owned()
}

/// The truncation marker is fourteen ASCII characters, hence fourteen bytes.
pub proof fn lemma_marker()
    ensures
        marker_chars().len() == TRUNCATION_MARKER_BYTES,
        is_ascii_chars(marker_chars()),
        byte_len(marker_chars()) == TRUNCATION_MARKER_BYTES,
{
    reveal_strlit("...[TRUNCATED]");
    assert(is_ascii_chars(marker_chars()));
    is_ascii_chars_encode_utf8(marker_chars());
}

/// UTF-8 encoding distributes over concatenation of character sequences.
pub proof fn lemma_encode_utf8_concat(a: Seq<char>, b: Seq<char>)
    ensures
        encode_utf8(a + b) == encode_utf8(a) + encode_utf8(b),
    decreases a.len(),
{
    if a.len() == 0 {
        assert(a + b =~= b);
        assert(encode_utf8(a) + encode_utf8(b) =~= encode_utf8(b));
    } else {
        assert((a + b).drop_first() =~= a.drop_first() + b);
        lemma_encode_utf8_concat(a.drop_first(), b);
        assert((a + b)[0] == a[0]);
        assert(encode_utf8(a + b) =~= encode_utf8(a) + encode_utf8(b));
    }
}

/// Pushing a line adds exactly its byte length to the total.
pub proof fn lemma_total_byte_len_push(lines: Seq<Seq<char>>, line: Seq<char>)
    ensures
        total_byte_len(lines.push(line)) == total_byte_len(lines) + byte_len(line),
{
    assert(lines.push(line).drop_last() =~= lines);
    assert(lines.push(line).last() == line);
}

/// The total byte length also decomposes at the first line.
pub proof fn lemma_total_byte_len_first(lines: Seq<Seq<char>>)
    requires
        lines.len() > 0,
    ensures
        total_byte_len(lines) == byte_len(lines[0]) + total_byte_len(lines.drop_first()),
    decreases lines.len(),
{
    if lines.len() == 1 {
        assert(lines.drop_last() =~= Seq::<Seq<char>>::empty());
        assert(lines.drop_first() =~= Seq::<Seq<char>>::empty());
        assert(lines.last() == lines[0]);
    } else {
        let dl = lines.drop_last();
        lemma_total_byte_len_first(dl);
        assert(dl[0] == lines[0]);
        assert(dl.drop_first() =~= lines.drop_first().drop_last());
        assert(lines.drop_first().last() == lines.last());
    }
}

/// Joining two line sequences concatenates their displayed text.
pub proof fn lemma_concat_lines_append(a: Seq<Seq<char>>, b: Seq<Seq<char>>)
    ensures
        concat_lines(a + b) == concat_lines(a) + concat_lines(b),
    decreases b.len(),
{
    if b.len() == 0 {
        assert(a + b =~= a);
        assert(concat_lines(a) + concat_lines(b) =~= concat_lines(a));
    } else {
        assert((a + b).drop_last() =~= a + b.drop_last());
        lemma_concat_lines_append(a, b.drop_last());
        assert((a + b).last() == b.last());
        assert(concat_lines(a + b) =~= concat_lines(a) + concat_lines(b));
    }
}

/// The largest character boundary of `bytes` that is at most `max`.
pub open spec fn boundary_at_or_below(bytes: Seq<u8>, max: int) -> int
    recommends
        valid_utf8(bytes),
        0 <= max,
    decreases max,
{
    if max <= 0 {
        0
    } else if is_char_boundary(bytes, max) {
        max
    } else {
        boundary_at_or_below(bytes, max - 1)
    }
}

/// `boundary_at_or_below` names a character boundary, stays within `max`,
/// and no later position up to `max` is a boundary.
pub proof fn lemma_boundary_at_or_below(bytes: Seq<u8>, max: int)
    requires
        valid_utf8(bytes),
        0 <= max,
    ensures
        0 <= boundary_at_or_below(bytes, max) <= max,
        is_char_boundary(bytes, boundary_at_or_below(bytes, max)),
        forall|j: int|
            boundary_at_or_below(bytes, max) < j <= max ==> !is_char_boundary(bytes, j),
    decreases max,
{
    if max <= 0 {
    } else if is_char_boundary(bytes, max) {
    } else {
        lemma_boundary_at_or_below(bytes, max - 1);
    }
}

/// The boundary search is idempotent: searching again from a cut point it
/// already found changes nothing.
pub proof fn lemma_boundary_idempotent(bytes: Seq<u8>, max: int)
    requires
        valid_utf8(bytes),
        0 <= max,
    ensures
        boundary_at_or_below(bytes, boundary_at_or_below(bytes, max)) == boundary_at_or_below(
            bytes,
            max,
        ),
{
    lemma_boundary_at_or_below(bytes, max);
}

/// Truncate `s` to a byte length of at most `max`, cutting only on a
/// character boundary, never inside a multi-byte character; the flag
/// reports whether anything was cut off. The cut point is the largest
/// character boundary that is at most `max`.
pub fn truncate_to_char_boundary<'a>(s: &'a str, max: usize) -> (r: (bool, &'a str))
    requires
        s.spec_bytes().len() <= usize::MAX,
    ensures
        r.0 == (max < s.spec_bytes().len()),
        !r.0 ==> r.1@ == s@,
        r.0 ==> r.1.spec_bytes() == s.spec_bytes().subrange(
            0,
            boundary_at_or_below(s.spec_bytes(), max as int),
        ),
        r.1.spec_bytes().len() <= max,
        is_char_boundary(s.spec_bytes(), r.1.spec_bytes().len() as int),
        r.1@ == s@.take(r.1@.len() as int),
        forall|j: int|
            r.1.spec_bytes().len() < j <= max ==> !is_char_boundary(s.spec_bytes(), j),
{
    broadcast use vstd::utf8::encode_utf8_valid_utf8;

    let ghost bytes = s.spec_bytes();
    if max >= s.len() {
        proof {
            is_char_boundary_start_end_of_seq(bytes);
            assert(s@.take(s@.len() as int) =~= s@);
        }
        (false, s)
    } else {
        let mut cut: usize = max;
        while !s.is_char_boundary(cut)
            invariant
                cut <= max,
                max < bytes.len() <= usize::MAX,
                bytes == s.spec_bytes(),
                valid_utf8(bytes),
                boundary_at_or_below(bytes, max as int) == boundary_at_or_below(
                    bytes,
                    cut as int,
                ),
            decreases cut,
        {
            proof {
                assert(is_char_boundary(bytes, 0));
            }
            cut = cut - 1;
        }
        proof {
            assert(boundary_at_or_below(bytes, cut as int) == cut as int);
            lemma_boundary_at_or_below(bytes, max as int);
        }
        let (prefix, _) = s.split_at(cut);
        proof {
            assert(prefix.spec_bytes() =~= bytes.subrange(0, cut as int));
            assert(prefix.spec_bytes() == encode_utf8(prefix@));
            encode_utf8_decode_utf8(prefix@);
            encode_utf8_decode_utf8(s@);
            decode_utf8_split(bytes, cut as int);
            assert(decode_utf8(bytes) == s@);
            assert(s@ == prefix@ + decode_utf8(bytes.subrange(cut as int, bytes.len() as int)));
            assert(s@.take(prefix@.len() as int) =~= prefix@);
        }
        (true, prefix)
    }
}

/// All lines joined in append order, with no separator between them: the
/// stream's displayed contents.
pub open spec fn concat_lines(lines: Seq<Seq<char>>) -> Seq<char>
    decreases lines.len(),
{
    if lines.len() == 0 {
        Seq::<char>::empty()
    } else {
        concat_lines(lines.drop_last()) + lines.last()
    }
}

/// Pushing a line appends exactly its text to the displayed contents.
pub proof fn lemma_concat_lines_push(lines: Seq<Seq<char>>, line: Seq<char>)
    ensures
        concat_lines(lines.push(line)) == concat_lines(lines) + line,
{
    assert(lines.push(line).drop_last() =~= lines);
    assert(lines.push(line).last() == line);
}

/// The text an input decodes to on its way into the stream: valid UTF-8
/// decodes exactly; anything else goes through the lossy replacement.
pub open spec fn append_chars(input: Seq<u8>) -> Seq<char> {
    if valid_utf8(input) {
        decode_utf8(input)
    } else {
        lossy_decode(input)
    }
}

/// What one `append` call does, as a function on the model: the new model
/// and the reported number of bytes written.
///
/// A stream whose byte counter has passed its capacity is closed for
/// writing; an empty input is a no-op. Otherwise the input's decoded text
/// is stored whole when it fits the remaining budget, and is otherwise cut
/// at the largest character boundary within the budget and stored with the
/// truncation marker appended. The marker's own bytes are counted on top
/// of the budget, so one truncating write may push the counter past the
/// capacity.
pub open spec fn spec_append(m: LogModel, input: Seq<u8>) -> (LogModel, nat) {
    if m.current > m.capacity {
        (m, 0)
    } else if input.len() == 0 {
        (m, 0)
    } else {
        let chars = append_chars(input);
        let bytes = encode_utf8(chars);
        let budget = m.capacity - m.current;
        if bytes.len() <= budget {
            (
                LogModel {
                    lines: m.lines.push(chars),
                    capacity: m.capacity,
                    current: (m.current + bytes.len()) as nat,
                },
                bytes.len(),
            )
        } else {
            let cut = boundary_at_or_below(bytes, budget);
            let line = decode_utf8(bytes.subrange(0, cut)) + marker_chars();
            (
                LogModel {
                    lines: m.lines.push(line),
                    capacity: m.capacity,
                    current: (m.current + cut + TRUNCATION_MARKER_BYTES) as nat,
                },
                (cut + TRUNCATION_MARKER_BYTES) as nat,
            )
        }
    }
}

#[verifier::external_type_specification]
#[verifier::external_body]
pub struct ExIoError(std::io::Error);

impl LogStream {
    /// Store the given bytes as one line of text, truncating on a character
    /// boundary if they exceed the remaining byte budget, and report the
    /// stored line's byte length. The call never fails; a closed stream and
    /// an empty input report zero bytes written.
    pub fn append(&mut self, buf: &[u8]) -> (r: Result<usize, std::io::Error>)
        requires
            old(self).wf(),
        ensures
            final(self).wf(),
            r is Ok,
            final(self)@ == spec_append(old(self)@, buf@).0,
            r->Ok_0 as nat == spec_append(old(self)@, buf@).1,
            // Input that fits the remaining budget is stored exactly, and its
            // full byte length is reported.
            (old(self)@.current <= old(self)@.capacity && valid_utf8(buf@) && 0 < buf@.len()
                <= old(self)@.capacity - old(self)@.current) ==> {
                &&& r->Ok_0 == buf@.len()
                &&& final(self)@.lines == old(self)@.lines.push(decode_utf8(buf@))
                &&& concat_lines(final(self)@.lines) == concat_lines(old(self)@.lines)
                    + decode_utf8(buf@)
            },
            // Input past the remaining budget is stored as a character-bounded
            // prefix of its text with the marker appended, and the stored
            // line's byte length is reported.
            ({
                let budget = old(self)@.capacity - old(self)@.current;
                let cut = boundary_at_or_below(buf@, budget);
                let prefix = decode_utf8(buf@.subrange(0, cut));
                (old(self)@.current <= old(self)@.capacity && valid_utf8(buf@) && buf@.len()
                    > budget) ==> {
                    &&& cut <= budget
                    &&& final(self)@.lines == old(self)@.lines.push(prefix + marker_chars())
                    &&& prefix == decode_utf8(buf@).take(prefix.len() as int)
                    &&& r->Ok_0 as nat == byte_len(prefix + marker_chars())
                    &&& r->Ok_0 as nat == cut + TRUNCATION_MARKER_BYTES
                }
            }),
            // A stream whose counter has passed its capacity stays unchanged
            // and reports zero on every further call.
            old(self)@.current > old(self)@.capacity ==> final(self)@ == old(self)@ && r->Ok_0
                == 0,
    {
        if self.current_bytesize > self.capacity {
            return Ok(0);
        }
        if buf.len() == 0 {
            return Ok(0);
        }
        let decoded = decode_lossy(buf);
        let ghost chars = append_chars(buf@);
        let ghost bytes = encode_utf8(chars);
        let budget = self.capacity - self.current_bytesize;
        let (truncated, prefix) = truncate_to_char_boundary(decoded.as_str(), budget);
        let mut line = prefix.to_owned();
        if truncated {
            line.append("...[TRUNCATED]");
        }
        proof {
            lemma_marker();
            encode_utf8_valid_utf8(chars);
            if truncated {
                encode_utf8_decode_utf8(prefix@);
                lemma_boundary_at_or_below(bytes, budget as int);
                lemma_encode_utf8_concat(prefix@, marker_chars());
                assert(line@ == prefix@ + marker_chars());
                assert(byte_len(line@) == boundary_at_or_below(bytes, budget as int)
                    + TRUNCATION_MARKER_BYTES);
            }
        }
        let size = line.as_str().len();
        proof {
            lemma_total_byte_len_push(self@.lines, line@);
            lemma_concat_lines_push(self@.lines, line@);
        }
        self.current_bytesize = self.current_bytesize + size;
        self.logs.push(line);
        proof {
            assert(self@.lines =~= old(self)@.lines.push(
                spec_append(old(self)@, buf@).0.lines.last(),
            ));
            assert(self@ =~= spec_append(old(self)@, buf@).0);
            if valid_utf8(buf@) {
                decode_utf8_encode_utf8(buf@);
                if truncated {
                    let cutg = boundary_at_or_below(buf@, (old(self)@.capacity
                        - old(self)@.current) as int);
                    encode_utf8_decode_utf8(decode_utf8(buf@.subrange(0, cutg)));
                }
            }
        }
        Ok(size)
    }

    /// All stored lines, in append order.
    pub fn lines(&self) -> (r: &Vec<String>)
        ensures
            r.deep_view() == self@.lines,
    {
        proof {
            assert(self.logs.deep_view() =~= self@.lines);
        }
        &self.logs
    }

    /// The most recently stored line, if any.
    pub fn last(&self) -> (r: Option<&String>)
        ensures
            self@.lines.len() == 0 ==> r is None,
            self@.lines.len() > 0 ==> (r matches Some(line) && line@ == self@.lines.last()),
    {
        if self.logs.len() == 0 {
            None
        } else {
            let i = self.logs.len() - 1;
            Some(&self.logs[i])
        }
    }

    /// The most recently stored line as a borrowed string slice, if any.
    pub fn last_message(&self) -> (r: Option<&str>)
        ensures
            self@.lines.len() == 0 ==> r is None,
            self@.lines.len() > 0 ==> (r matches Some(line) && line@ == self@.lines.last()),
    {
        match self.last() {
            None => None,
            Some(line) => Some(line.as_str()),
        }
    }

    /// All stored lines joined in append order with no separators: the
    /// stream's displayed contents.
    pub fn contents(&self) -> (r: String)
        ensures
            r@ == concat_lines(self@.lines),
    {
        let mut out = String::new();
        let mut i: usize = 0;
        while i < self.logs.len()
            invariant
                i <= self.logs.len(),
                out@ == concat_lines(self@.lines.take(i as int)),
            decreases self.logs.len() - i,
        {
            out.append(self.logs[i].as_str());
            proof {
                lemma_concat_lines_push(self@.lines.take(i as int), self@.lines[i as int]);
                assert(self@.lines.take(i + 1 as int) =~= self@.lines.take(i as int).push(
                    self@.lines[i as int],
                ));
            }
            i = i + 1;
        }
        proof {
            assert(self@.lines.take(self@.lines.len() as int) =~= self@.lines);
        }
        out
    }
}

/// Once the byte counter has passed the capacity, every later `append`
/// reports zero bytes written and leaves the stream unchanged, whatever
/// its input.
pub proof fn lemma_closed_stream_rejects_all(m: LogModel, input: Seq<u8>)
    requires
        m.current > m.capacity,
    ensures
        spec_append(m, input).0 == m,
        spec_append(m, input).1 == 0,
{
}

} // verus!
