//! Messages on the wire: a `Content-Length` header, an empty line and the text
//! of the message.
use vstd::prelude::*;
use vstd::slice::slice_subrange;
use vstd::utf8::*;

use crate::lsp_command::{client_command_json, command_text, writable, ClientCommand};
use crate::lsp_protocol::oversize_command;
use crate::lsp_queue::ProtocolInput;
use crate::paths::{copy_bytes, push_bytes, text_from_utf8};
use crate::project::{equal_ignoring_case, same_ignoring_case};
use crate::text::{
    byte_len, copy_text, decimal, is_digit, lemma_decimal, lemma_encode_add, push_decimal, utf8_len,
};

verus! {

/// A message as it is written.
pub open spec fn frame_text(json: Seq<char>) -> Seq<char> {
    "Content-Length: "@ + decimal(utf8_len(json)) + "\r\n\r\n"@ + json
}

/// A message as it is written.
pub fn frame(json: &str) -> (bytes: Vec<u8>)
    ensures
        bytes@ == encode_utf8(frame_text(json@)),
{
    let mut text = copy_text("Content-Length: ");
    push_decimal(&mut text, byte_len(json) as u64);
    text.push_str("\r\n\r\n");
    text.push_str(json);
    assert(text@ =~= frame_text(json@));
    copy_bytes(text.as_str().as_bytes())
}

/// A command as it is written, or why it is not.
pub fn write_client_command_json(command: &ClientCommand, max_message_bytes: usize) -> (result: Result<
    Vec<u8>,
    String,
>)
    ensures
        match result {
            Ok(bytes) => writable(*command) && utf8_len(command_text(*command))
                <= max_message_bytes && bytes@ == encode_utf8(frame_text(command_text(*command))),
            Err(reason) => !(writable(*command) && utf8_len(command_text(*command))
                <= max_message_bytes) && reason@ == oversize_command(max_message_bytes),
        },
{
    match client_command_json(command, max_message_bytes) {
        Some(json) => Ok(frame(json.as_str())),
        None => {
            let mut words = copy_text("outbound LSP message exceeds the ");
            push_decimal(&mut words, max_message_bytes as u64);
            words.push_str("-byte limit");
            Err(words)
        },
    }
}

/// Why incoming bytes are not a message.
#[derive(Clone, Debug, PartialEq, Eq)]
pub enum FrameError {
    HeaderTooLarge,
    InvalidHeader,
    MissingContentLength,
    MessageTooLarge,
    InvalidUtf8,
}

/// The words for a framing error.
pub open spec fn frame_error_words(error: FrameError) -> Seq<char> {
    match error {
        FrameError::HeaderTooLarge => "LSP frame header exceeds its limit"@,
        FrameError::InvalidHeader => "LSP frame header is malformed"@,
        FrameError::MissingContentLength => "LSP frame has no Content-Length"@,
        FrameError::MessageTooLarge => "LSP message exceeds its limit"@,
        FrameError::InvalidUtf8 => "LSP message is not valid UTF-8"@,
    }
}

impl FrameError {
    /// What the error says.
    pub fn describe(&self) -> (words: String)
        ensures
            words@ == frame_error_words(*self),
    {
        copy_text(
            match self {
                FrameError::HeaderTooLarge => "LSP frame header exceeds its limit",
                FrameError::InvalidHeader => "LSP frame header is malformed",
                FrameError::MissingContentLength => "LSP frame has no Content-Length",
                FrameError::MessageTooLarge => "LSP message exceeds its limit",
                FrameError::InvalidUtf8 => "LSP message is not valid UTF-8",
            },
        )
    }
}

/// The end of the line that starts before `i`.
pub open spec fn line_end(bytes: Seq<u8>, i: int) -> int
    decreases bytes.len() - i,
{
    if i < 0 || i >= bytes.len() {
        bytes.len() as int
    } else if bytes[i] == 13 && i + 1 < bytes.len() && bytes[i + 1] == 10 {
        i
    } else {
        line_end(bytes, i + 1)
    }
}

/// The first index of a byte from `i` on, up to `end`.
pub open spec fn index_of_byte(bytes: Seq<u8>, wanted: u8, i: int, end: int) -> int
    decreases end - i,
{
    if i < 0 || i >= end || i >= bytes.len() {
        end
    } else if bytes[i] == wanted {
        i
    } else {
        index_of_byte(bytes, wanted, i + 1, end)
    }
}

/// The first index that holds no blank.
pub open spec fn after_blanks(bytes: Seq<u8>, i: int, end: int) -> int
    decreases end - i,
{
    if 0 <= i < end && i < bytes.len() && (bytes[i] == 32 || bytes[i] == 9) {
        after_blanks(bytes, i + 1, end)
    } else {
        i
    }
}

/// The end of what stands before trailing blanks.
pub open spec fn before_blanks(bytes: Seq<u8>, i: int, end: int) -> int
    decreases end - i,
{
    if i < end && 0 < end <= bytes.len() && (bytes[end - 1] == 32 || bytes[end - 1] == 9) {
        before_blanks(bytes, i, end - 1)
    } else {
        end
    }
}

/// The number that decimal digits stand for, where it is at most `u64::MAX`.
pub open spec fn number_in(bytes: Seq<u8>, i: int, end: int) -> Option<u64>
    decreases end - i,
{
    if i >= end || i < 0 || end > bytes.len() {
        None
    } else if !(48 <= bytes[end - 1] <= 57) {
        None
    } else if i + 1 == end {
        Some((bytes[i] - 48) as u64)
    } else {
        match number_in(bytes, i, end - 1) {
            Some(front) => {
                let value = front * 10 + (bytes[end - 1] - 48);
                if value > u64::MAX {
                    None
                } else {
                    Some(value as u64)
                }
            },
            None => None,
        }
    }
}

/// The value of the header line `bytes[i..end]` whose name ends at `colon`.
pub open spec fn header_number(bytes: Seq<u8>, colon: int, end: int) -> Option<u64> {
    let start = after_blanks(bytes, colon + 1, end);
    number_in(bytes, start, before_blanks(bytes, start, end))
}

/// The content length among the header lines from `i` on, unless the header is
/// malformed or gives it twice.
pub open spec fn content_length(header: Seq<u8>, i: int) -> Result<Option<u64>, ()>
    decreases header.len() - i,
{
    if i < 0 || i >= header.len() {
        Ok(None)
    } else {
        let end = line_end(header, i);
        let colon = index_of_byte(header, 58, i, end);
        if colon >= end || end < i {
            Err(())
        } else {
            let below = if end + 2 <= header.len() {
                content_length(header, end + 2)
            } else {
                Ok(None)
            };
            match below {
                Err(()) => Err(()),
                Ok(rest) => if same_ignoring_case(
                    header.subrange(i, colon),
                    encode_utf8("Content-Length"@),
                ) {
                    match (header_number(header, colon, end), rest) {
                        (Some(n), None) => Ok(Some(n)),
                        _ => Err(()),
                    }
                } else {
                    Ok(rest)
                },
            }
        }
    }
}

/// Where the empty line behind a header starts.
pub open spec fn header_end(bytes: Seq<u8>, i: int) -> Option<int>
    decreases bytes.len() - i,
{
    if i < 0 || i + 4 > bytes.len() {
        None
    } else if bytes[i] == 13 && bytes[i + 1] == 10 && bytes[i + 2] == 13 && bytes[i + 3] == 10 {
        Some(i)
    } else {
        header_end(bytes, i + 1)
    }
}

/// What the start of the received bytes gives.
pub enum Framed {
    /// More bytes are needed.
    More,
    /// A message, and the bytes behind it.
    Message(Seq<char>, Seq<u8>),
    /// No message.
    Failed(FrameError),
}

/// Reads the first message of the received bytes.
pub open spec fn framed(bytes: Seq<u8>, max_header: usize, max_message: usize) -> Framed {
    match header_end(bytes, 0) {
        None => if bytes.len() > max_header {
            Framed::Failed(FrameError::HeaderTooLarge)
        } else {
            Framed::More
        },
        Some(end) => if end > max_header {
            Framed::Failed(FrameError::HeaderTooLarge)
        } else {
            match content_length(bytes.take(end), 0) {
                Err(()) => Framed::Failed(FrameError::InvalidHeader),
                Ok(None) => Framed::Failed(FrameError::MissingContentLength),
                Ok(Some(length)) => if length > max_message {
                    Framed::Failed(FrameError::MessageTooLarge)
                } else if bytes.len() < end + 4 + length {
                    Framed::More
                } else {
                    let body = bytes.subrange(end + 4, end + 4 + length);
                    if valid_utf8(body) {
                        Framed::Message(decode_utf8(body), bytes.skip(end + 4 + length))
                    } else {
                        Framed::Failed(FrameError::InvalidUtf8)
                    }
                },
            }
        },
    }
}

/// The messages in the received bytes, what is left of the bytes, and why the
/// rest is no message.
pub open spec fn all_framed(bytes: Seq<u8>, max_header: usize, max_message: usize) -> (
    Seq<Seq<char>>,
    Seq<u8>,
    Option<FrameError>,
)
    decreases bytes.len(),
{
    match framed(bytes, max_header, max_message) {
        Framed::More => (Seq::empty(), bytes, None),
        Framed::Failed(error) => (Seq::empty(), bytes, Some(error)),
        Framed::Message(message, rest) => if rest.len() < bytes.len() {
            let (messages, left, error) = all_framed(rest, max_header, max_message);
            (seq![message] + messages, left, error)
        } else {
            (seq![message], rest, None)
        },
    }
}

fn find_line_end(bytes: &[u8], from: usize) -> (end: usize)
    requires
        from <= bytes@.len(),
    ensures
        end == line_end(bytes@, from as int),
        from <= end <= bytes@.len(),
{
    let mut i: usize = from;
    while i < bytes.len()
        invariant
            from <= i <= bytes@.len(),
            line_end(bytes@, i as int) == line_end(bytes@, from as int),
        decreases bytes@.len() - i,
    {
        if bytes[i] == 13 && i + 1 < bytes.len() && bytes[i + 1] == 10 {
            return i;
        }
        i += 1;
    }
    i
}

fn find_byte(bytes: &[u8], wanted: u8, from: usize, end: usize) -> (at: usize)
    requires
        from <= end <= bytes@.len(),
    ensures
        at == index_of_byte(bytes@, wanted, from as int, end as int),
        from <= at <= end,
{
    let mut i: usize = from;
    while i < end
        invariant
            from <= i <= end <= bytes@.len(),
            index_of_byte(bytes@, wanted, i as int, end as int) == index_of_byte(
                bytes@,
                wanted,
                from as int,
                end as int,
            ),
        decreases end - i,
    {
        if bytes[i] == wanted {
            return i;
        }
        i += 1;
    }
    end
}

fn parse_number(bytes: &[u8], from: usize, end: usize) -> (number: Option<u64>)
    requires
        from <= end <= bytes@.len(),
    ensures
        number == number_in(bytes@, from as int, end as int),
    decreases end - from,
{
    if from >= end {
        return None;
    }
    let last = bytes[end - 1];
    if last < 48 || last > 57 {
        return None;
    }
    if from + 1 == end {
        return Some((last - 48) as u64);
    }
    match parse_number(bytes, from, end - 1) {
        Some(front) => match front.checked_mul(10) {
            Some(shifted) => shifted.checked_add((last - 48) as u64),
            None => None,
        },
        None => None,
    }
}

fn parse_header_number(bytes: &[u8], colon: usize, end: usize) -> (number: Option<u64>)
    requires
        colon < end <= bytes@.len(),
    ensures
        number == header_number(bytes@, colon as int, end as int),
{
    let mut start: usize = colon + 1;
    while start < end && (bytes[start] == 32 || bytes[start] == 9)
        invariant
            colon + 1 <= start <= end <= bytes@.len(),
            after_blanks(bytes@, start as int, end as int) == after_blanks(
                bytes@,
                colon + 1,
                end as int,
            ),
        decreases end - start,
    {
        start += 1;
    }
    let mut stop: usize = end;
    while start < stop && (bytes[stop - 1] == 32 || bytes[stop - 1] == 9)
        invariant
            start <= stop <= end <= bytes@.len(),
            before_blanks(bytes@, start as int, stop as int) == before_blanks(
                bytes@,
                start as int,
                end as int,
            ),
        decreases stop,
    {
        stop -= 1;
    }
    parse_number(bytes, start, stop)
}

fn parse_content_length(header: &[u8], from: usize) -> (length: Result<Option<u64>, ()>)
    requires
        from <= header@.len(),
    ensures
        length == content_length(header@, from as int),
    decreases header@.len() - from,
{
    if from >= header.len() {
        return Ok(None);
    }
    let end = find_line_end(header, from);
    let colon = find_byte(header, 58, from, end);
    if colon >= end {
        return Err(());
    }
    let rest = if end < header.len() {
        assert(header@[end as int] == 13 && end + 1 < header@.len()) by {
            lemma_line_end(header@, from as int);
        }
        parse_content_length(header, end + 2)
    } else {
        Ok(None)
    };
    let rest = match rest {
        Ok(rest) => rest,
        Err(()) => {
            return Err(());
        },
    };
    let name = slice_subrange(header, from, colon);
    if !equal_ignoring_case(name, "Content-Length".as_bytes()) {
        return Ok(rest);
    }
    match (parse_header_number(header, colon, end), rest) {
        (Some(n), None) => Ok(Some(n)),
        _ => Err(()),
    }
}

proof fn lemma_line_end(bytes: Seq<u8>, i: int)
    requires
        0 <= i <= bytes.len(),
    ensures
        line_end(bytes, i) < bytes.len() ==> line_end(bytes, i) + 1 < bytes.len()
            && bytes[line_end(bytes, i)] == 13,
    decreases bytes.len() - i,
{
    if i < bytes.len() && !(bytes[i] == 13 && i + 1 < bytes.len() && bytes[i + 1] == 10) {
        lemma_line_end(bytes, i + 1);
    }
}

fn find_header_end(bytes: &[u8]) -> (end: Option<usize>)
    ensures
        match (end, header_end(bytes@, 0)) {
            (Some(a), Some(b)) => a == b && a + 4 <= bytes@.len(),
            (None, None) => true,
            _ => false,
        },
{
    let size: usize = bytes.len();
    let mut i: usize = 0;
    while size >= 4 && i <= size - 4
        invariant
            size == bytes@.len(),
            i <= size,
            header_end(bytes@, i as int) == header_end(bytes@, 0),
        decreases size - i,
    {
        if bytes[i] == 13 && bytes[i + 1] == 10 && bytes[i + 2] == 13 && bytes[i + 3] == 10 {
            return Some(i);
        }
        i += 1;
    }
    None
}

/// A decoder of incoming messages.
#[derive(Debug)]
pub struct FrameDecoder {
    buffer: Vec<u8>,
    max_header_bytes: usize,
    max_message_bytes: usize,
}

impl View for FrameDecoder {
    type V = Seq<u8>;

    closed spec fn view(&self) -> Seq<u8> {
        self.buffer@
    }
}

/// The contents of texts.
pub open spec fn messages_of(texts: Seq<String>) -> Seq<Seq<char>> {
    texts.map_values(|text: String| text@)
}

impl FrameDecoder {
    /// The largest header.
    pub closed spec fn header_limit(&self) -> usize {
        self.max_header_bytes
    }

    /// The largest message.
    pub closed spec fn message_limit(&self) -> usize {
        self.max_message_bytes
    }

    /// A decoder that has received nothing.
    pub fn with_limits(max_header_bytes: usize, max_message_bytes: usize) -> (decoder: Self)
        ensures
            decoder@ == Seq::<u8>::empty(),
            decoder.header_limit() == max_header_bytes,
            decoder.message_limit() == max_message_bytes,
    {
        FrameDecoder { buffer: Vec::new(), max_header_bytes, max_message_bytes }
    }

    /// How many bytes wait for the rest of their message.
    pub fn pending_bytes(&self) -> (n: usize)
        ensures
            n == self@.len(),
    {
        self.buffer.len()
    }

    /// Takes received bytes; the messages that they complete. After an error
    /// the decoder holds what it could not read.
    pub fn push(&mut self, bytes: &[u8]) -> (result: Result<Vec<String>, FrameError>)
        ensures
            final(self).header_limit() == old(self).header_limit(),
            final(self).message_limit() == old(self).message_limit(),
            ({
                let (messages, left, error) = all_framed(
                    old(self)@ + bytes@,
                    old(self).header_limit(),
                    old(self).message_limit(),
                );
                &&& final(self)@ == left
                &&& match result {
                    Ok(texts) => error is None && messages_of(texts@) == messages,
                    Err(reason) => error == Some(reason),
                }
            }),
    {
        push_bytes(&mut self.buffer, bytes);
        let ghost all = self.buffer@;
        let ghost max_header = self.max_header_bytes;
        let ghost max_message = self.max_message_bytes;
        let mut messages: Vec<String> = Vec::new();
        assert(messages_of(messages@) =~= Seq::<Seq<char>>::empty());
        assert(messages_of(messages@) + all_framed(all, max_header, max_message).0 =~= all_framed(
            all,
            max_header,
            max_message,
        ).0);
        loop
            invariant
                max_header == self.max_header_bytes,
                max_message == self.max_message_bytes,
                self.header_limit() == old(self).header_limit(),
                self.message_limit() == old(self).message_limit(),
                all == old(self)@ + bytes@,
                max_header == old(self).header_limit(),
                max_message == old(self).message_limit(),
                ({
                    let (rest, left, error) = all_framed(self.buffer@, max_header, max_message);
                    all_framed(all, max_header, max_message) == (
                        messages_of(messages@) + rest,
                        left,
                        error,
                    )
                }),
            decreases self.buffer@.len(),
        {
            let ghost now = self.buffer@;
            let size: usize = self.buffer.len();
            let end = match find_header_end(self.buffer.as_slice()) {
                Some(end) => end,
                None => {
                    if size > self.max_header_bytes {
                        return Err(FrameError::HeaderTooLarge);
                    }
                    assert(messages_of(messages@) + Seq::<Seq<char>>::empty() =~= messages_of(
                        messages@,
                    ));
                    return Ok(messages);
                },
            };
            if end > self.max_header_bytes {
                return Err(FrameError::HeaderTooLarge);
            }
            let header = slice_subrange(self.buffer.as_slice(), 0, end);
            assert(header@ =~= now.take(end as int));
            let length = match parse_content_length(header, 0) {
                Err(()) => {
                    return Err(FrameError::InvalidHeader);
                },
                Ok(None) => {
                    return Err(FrameError::MissingContentLength);
                },
                Ok(Some(length)) => length,
            };
            if length > self.max_message_bytes as u64 {
                return Err(FrameError::MessageTooLarge);
            }
            let length = length as usize;
            let start: usize = end + 4;
            if size - start < length {
                assert(messages_of(messages@) + Seq::<Seq<char>>::empty() =~= messages_of(
                    messages@,
                ));
                return Ok(messages);
            }
            let stop: usize = start + length;
            let body = copy_bytes(slice_subrange(self.buffer.as_slice(), start, stop));
            assert(body@ =~= now.subrange(start as int, stop as int));
            let message = match text_from_utf8(body) {
                Some(message) => message,
                None => {
                    return Err(FrameError::InvalidUtf8);
                },
            };
            proof {
                encode_utf8_decode_utf8(message@);
            }
            let rest = copy_bytes(slice_subrange(self.buffer.as_slice(), stop, size));
            assert(rest@ =~= now.skip(stop as int));
            self.buffer = rest;
            let ghost past = messages@;
            messages.push(message);
            proof {
                assert(messages_of(messages@) =~= messages_of(past).push(message@));
                let (later, left, error) = all_framed(self.buffer@, max_header, max_message);
                assert(messages_of(past) + (seq![message@] + later) =~= messages_of(messages@)
                    + later);
            }
        }
    }
}

/// No empty line starts before the first carriage return.
proof fn lemma_header_end(bytes: Seq<u8>, i: int, h: int)
    requires
        0 <= i <= h,
        h + 4 <= bytes.len(),
        forall|j: int| 0 <= j < h ==> #[trigger] bytes[j] != 13,
        bytes[h] == 13,
        bytes[h + 1] == 10,
        bytes[h + 2] == 13,
        bytes[h + 3] == 10,
    ensures
        header_end(bytes, i) == Some(h),
    decreases h - i,
{
    if i < h {
        lemma_header_end(bytes, i + 1, h);
    }
}

/// A line without a carriage return goes on to the end.
proof fn lemma_one_line(bytes: Seq<u8>, i: int)
    requires
        0 <= i <= bytes.len(),
        forall|j: int| 0 <= j < bytes.len() ==> #[trigger] bytes[j] != 13,
    ensures
        line_end(bytes, i) == bytes.len(),
    decreases bytes.len() - i,
{
    if i < bytes.len() {
        lemma_one_line(bytes, i + 1);
    }
}

/// The first index of a byte is found.
proof fn lemma_index_of_byte(bytes: Seq<u8>, wanted: u8, i: int, at: int, end: int)
    requires
        0 <= i <= at < end <= bytes.len(),
        forall|j: int| 0 <= j < at ==> #[trigger] bytes[j] != wanted,
        bytes[at] == wanted,
    ensures
        index_of_byte(bytes, wanted, i, end) == at,
    decreases at - i,
{
    if i < at {
        lemma_index_of_byte(bytes, wanted, i + 1, at, end);
    }
}

/// Decimal notation is read as the number that it was made from.
proof fn lemma_number_in(bytes: Seq<u8>, i: int, end: int, n: nat)
    requires
        0 <= i <= end <= bytes.len(),
        end - i == decimal(n).len(),
        forall|j: int| i <= j < end ==> #[trigger] bytes[j] == decimal(n)[j - i] as u8,
        n <= u64::MAX,
    ensures
        number_in(bytes, i, end) == Some(n as u64),
    decreases n,
{
    lemma_decimal(n);
    assert(is_digit(decimal(n)[decimal(n).len() - 1]));
    assert(bytes[end - 1] == decimal(n)[end - 1 - i] as u8);
    if n >= 10 {
        lemma_decimal(n / 10);
        assert forall|j: int| i <= j < end - 1 implies #[trigger] bytes[j] == decimal(n / 10)[j - i] as u8 by {
            assert(decimal(n)[j - i] == decimal(n / 10)[j - i]);
        }
        lemma_number_in(bytes, i, end - 1, n / 10);
        assert(n == (n / 10) * 10 + n % 10);
    }
}

/// What is framed is read back, whatever follows, where the limits allow for
/// it.
pub proof fn law_frame_is_read_back(
    json: Seq<char>,
    rest: Seq<u8>,
    max_header: usize,
    max_message: usize,
)
    requires
        utf8_len(json) <= max_message,
        "Content-Length: "@.len() + decimal(utf8_len(json)).len() <= max_header,
    ensures
        framed(encode_utf8(frame_text(json)) + rest, max_header, max_message) == Framed::Message(
            json,
            rest,
        ),
{
    let n = utf8_len(json);
    let digits = decimal(n);
    let header = "Content-Length: "@ + digits;
    let head = encode_utf8(header);
    let body = encode_utf8(json);
    let bytes = encode_utf8(frame_text(json)) + rest;
    reveal_strlit("Content-Length: ");
    reveal_strlit("Content-Length");
    reveal_strlit("\r\n\r\n");
    lemma_decimal(n);
    assert forall|i: int| 0 <= i < header.len() implies (#[trigger] header[i] as u32) < 0x80 && header[i] != '\r' by {
        if i >= 16 {
            assert(is_digit(digits[i - 16]));
        }
    }
    assert(is_ascii_chars(header));
    is_ascii_chars_encode_utf8(header);
    let gap = "\r\n\r\n"@;
    assert(is_ascii_chars(gap));
    is_ascii_chars_encode_utf8(gap);
    assert(frame_text(json) =~= header + gap + json);
    lemma_encode_add(header + gap, json);
    lemma_encode_add(header, gap);
    let h = head.len() as int;
    assert(bytes =~= head + encode_utf8(gap) + body + rest);
    assert forall|j: int| 0 <= j < h implies #[trigger] bytes[j] == header[j] as u8 && bytes[j] != 13 by {
        assert((header[j] as u32) < 0x80 && header[j] != '\r');
    }
    lemma_header_end(bytes, 0, h);
    assert(bytes.take(h) =~= head);
    assert forall|j: int| 0 <= j < h implies #[trigger] head[j] != 13 by {
        assert(bytes[j] == head[j]);
    }
    lemma_one_line(head, 0);
    assert forall|j: int| 0 <= j < 14 implies #[trigger] head[j] != 58 by {
        assert(header[j] == "Content-Length: "@[j]);
    }
    assert(head[14] == 58);
    lemma_index_of_byte(head, 58, 0, 14, h);
    let name = "Content-Length"@;
    assert(is_ascii_chars(name));
    is_ascii_chars_encode_utf8(name);
    assert(head.subrange(0, 14) =~= encode_utf8(name));
    assert forall|j: int| 16 <= j < h implies #[trigger] head[j] == digits[j - 16] as u8 by {
        assert(header[j] == digits[j - 16]);
    }
    assert(is_digit(digits[0]) && is_digit(digits[digits.len() - 1]));
    assert(head[15] == 32);
    assert(head[16] == digits[0] as u8);
    assert(head[h - 1] == digits[digits.len() - 1] as u8);
    assert(after_blanks(head, 16, h) == 16);
    assert(after_blanks(head, 15, h) == 16);
    assert(before_blanks(head, 16, h) == h);
    lemma_number_in(head, 16, h, n);
    assert(content_length(head, 0) == Ok::<Option<u64>, ()>(Some(n as u64)));
    assert(bytes.subrange(h + 4, h + 4 + n) =~= body);
    assert(bytes.skip(h + 4 + n) =~= rest);
    encode_utf8_valid_utf8(json);
    encode_utf8_decode_utf8(json);
}

/// The end of a header stays where it is when more bytes come.
proof fn lemma_header_end_stays(a: Seq<u8>, b: Seq<u8>, i: int)
    requires
        0 <= i,
        header_end(a, i) is Some,
    ensures
        header_end(a + b, i) == header_end(a, i),
        i <= header_end(a, i)->0,
        header_end(a, i)->0 + 4 <= a.len(),
    decreases a.len() - i,
{
    if !(a[i] == 13 && a[i + 1] == 10 && a[i + 2] == 13 && a[i + 3] == 10) {
        lemma_header_end_stays(a, b, i + 1);
    }
}

/// Bytes that come in two parts give the messages that they give as one.
pub proof fn law_parts_give_the_same_messages(
    a: Seq<u8>,
    b: Seq<u8>,
    max_header: usize,
    max_message: usize,
)
    requires
        all_framed(a, max_header, max_message).2 is None,
    ensures
        ({
            let (first, left, _) = all_framed(a, max_header, max_message);
            let (second, end, error) = all_framed(left + b, max_header, max_message);
            all_framed(a + b, max_header, max_message) == (first + second, end, error)
        }),
    decreases a.len(),
{
    let (first, left, _) = all_framed(a, max_header, max_message);
    let (second, end, error) = all_framed(left + b, max_header, max_message);
    if let Framed::Message(message, rest) = framed(a, max_header, max_message) {
        lemma_header_end_stays(a, b, 0);
        let at = header_end(a, 0)->0;
        assert((a + b).take(at) =~= a.take(at));
        let length = content_length(a.take(at), 0)->Ok_0->0;
        let stop = at + 4 + length;
        assert((a + b).subrange(at + 4, stop) =~= a.subrange(at + 4, stop));
        assert((a + b).skip(stop) =~= rest + b);
        assert(framed(a + b, max_header, max_message) == Framed::Message(message, rest + b));
        law_parts_give_the_same_messages(rest, b, max_header, max_message);
        let (later, _, _) = all_framed(rest, max_header, max_message);
        assert(first =~= seq![message] + later);
        assert(first + second =~= seq![message] + (later + second));
    } else {
        assert(first + second =~= second);
    }
}

/// No message is larger than its limit, and what waits for more bytes never
/// exceeds a header and a message.
pub proof fn law_decoder_stays_bounded(bytes: Seq<u8>, max_header: usize, max_message: usize)
    ensures
        ({
            let (messages, left, error) = all_framed(bytes, max_header, max_message);
            &&& forall|i: int|
                0 <= i < messages.len() ==> utf8_len(#[trigger] messages[i]) <= max_message
            &&& error is None ==> left.len() <= max_header + 4 + max_message
        }),
    decreases bytes.len(),
{
    if header_end(bytes, 0) is Some {
        lemma_header_end_stays(bytes, Seq::empty(), 0);
    }
    if let Framed::Message(message, rest) = framed(bytes, max_header, max_message) {
        let at = header_end(bytes, 0)->0;
        let length = content_length(bytes.take(at), 0)->Ok_0->0;
        let body = bytes.subrange(at + 4, at + 4 + length);
        decode_utf8_encode_utf8(body);
        assert(utf8_len(message) == length);
        law_decoder_stays_bounded(rest, max_header, max_message);
        let (later, _, _) = all_framed(rest, max_header, max_message);
        let (messages, _, _) = all_framed(bytes, max_header, max_message);
        assert forall|i: int| 0 <= i < messages.len() implies utf8_len(#[trigger] messages[i])
            <= max_message by {
            if i > 0 {
                assert(messages[i] == later[i - 1]);
            }
        }
    }
}

/// What the end of the server's output means.
pub fn output_ended(pending_bytes: usize) -> (input: ProtocolInput)
    ensures
        match input {
            ProtocolInput::ServerClosed => pending_bytes == 0,
            ProtocolInput::TransportError(words) => pending_bytes > 0 && words@
                == "language-server stdout ended with "@ + decimal(pending_bytes as nat)
                + " bytes of a partial frame"@,
            _ => false,
        },
{
    if pending_bytes == 0 {
        return ProtocolInput::ServerClosed;
    }
    let mut words = copy_text("language-server stdout ended with ");
    push_decimal(&mut words, pending_bytes as u64);
    words.push_str(" bytes of a partial frame");
    ProtocolInput::TransportError(words)
}

/// What a failed read of one of the server's streams means.
pub fn read_failed(stream: &str, cause: &str) -> (input: ProtocolInput)
    ensures
        input matches ProtocolInput::TransportError(words) && words@ == "language-server "@
            + stream@ + " read failed: "@ + cause@,
{
    let mut words = copy_text("language-server ");
    words.push_str(stream);
    words.push_str(" read failed: ");
    words.push_str(cause);
    ProtocolInput::TransportError(words)
}

/// What it means that one of the server's streams gave more than the queue can
/// hold: the loss is made visible, and the protocol loop stops.
pub fn stream_overflowed(stream: &str) -> (input: ProtocolInput)
    ensures
        input matches ProtocolInput::TransportError(words) && words@ == "language-server "@
            + stream@ + " exceeded the shared input queue limit"@,
{
    let mut words = copy_text("language-server ");
    words.push_str(stream);
    words.push_str(" exceeded the shared input queue limit");
    ProtocolInput::TransportError(words)
}

} // verus!
