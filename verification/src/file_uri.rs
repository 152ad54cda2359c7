//! Local paths as `file://` URIs and back. A path is its bytes.
use vstd::prelude::*;
use vstd::utf8::*;

use crate::text::{copy_text, lemma_encode_add, lemma_utf8_len_bounds};

verus! {

/// The scheme and the empty host of a local file URI.
pub open spec fn file_prefix() -> Seq<char> {
    "file://"@
}

/// Whether a byte stands for itself in a URI.
pub open spec fn is_plain(b: u8) -> bool {
    (48 <= b <= 57) || (65 <= b <= 90) || (97 <= b <= 122) || b == 47 || b == 45 || b == 95 || b
        == 46 || b == 126 || b == 58
}

/// The upper-case hexadecimal digit of a value below sixteen.
pub open spec fn upper_hex(d: int) -> char {
    if d < 10 {
        (48 + d) as char
    } else {
        (55 + d) as char
    }
}

/// How one byte is written in a URI.
pub open spec fn uri_byte(b: u8) -> Seq<char> {
    if is_plain(b) {
        seq![b as char]
    } else {
        seq!['%', upper_hex(b as int / 16), upper_hex(b as int % 16)]
    }
}

/// How bytes are written in a URI.
pub open spec fn uri_bytes(bytes: Seq<u8>) -> Seq<char>
    decreases bytes.len(),
{
    if bytes.len() == 0 {
        Seq::empty()
    } else {
        uri_bytes(bytes.drop_last()) + uri_byte(bytes.last())
    }
}

/// A path with the leading slash that a file URI needs.
pub open spec fn rooted(path: Seq<u8>) -> Seq<u8> {
    if path.len() > 0 && path[0] == 47 {
        path
    } else {
        seq![47u8] + path
    }
}

/// The URI of a path.
pub open spec fn uri_of(path: Seq<u8>) -> Seq<char> {
    file_prefix() + uri_bytes(rooted(path))
}

/// The hexadecimal digit of a value below sixteen.
fn upper_hex_digit(d: u8) -> (c: char)
    requires
        d < 16,
    ensures
        c == upper_hex(d as int),
{
    if d < 10 {
        (48 + d) as char
    } else {
        (55 + d) as char
    }
}

/// Appends one byte of a path to a URI.
fn push_uri_byte(uri: &mut String, b: u8)
    ensures
        final(uri)@ == old(uri)@ + uri_byte(b),
{
    if (48 <= b && b <= 57) || (65 <= b && b <= 90) || (97 <= b && b <= 122) || b == 47 || b == 45
        || b == 95 || b == 46 || b == 126 || b == 58 {
        uri.push(b as char);
    } else {
        uri.push('%');
        uri.push(upper_hex_digit(b / 16));
        uri.push(upper_hex_digit(b % 16));
    }
    assert(uri@ =~= old(uri)@ + uri_byte(b));
}

/// Convert a local path to an absolute-style `file://` URI without a URL crate.
pub fn file_uri(path: &[u8]) -> (uri: String)
    ensures
        uri@ == uri_of(path@),
{
    let mut uri = copy_text("file://");
    let mut i: usize = 0;
    let ghost prefix = if path@.len() > 0 && path@[0] == 47 {
        Seq::<u8>::empty()
    } else {
        seq![47u8]
    };
    assert(rooted(path@) =~= prefix + path@);
    if !(path.len() > 0 && path[0] == 47) {
        push_uri_byte(&mut uri, 47);
        assert(prefix.drop_last() =~= Seq::<u8>::empty());
        assert(uri_bytes(prefix.drop_last()) =~= Seq::<char>::empty());
        assert(prefix.last() == 47);
        assert(uri_bytes(prefix) =~= uri_byte(47));
    } else {
        assert(uri_bytes(prefix) =~= Seq::<char>::empty());
    }
    assert(path@.take(0) =~= Seq::<u8>::empty());
    assert(prefix + path@.take(0) =~= prefix);
    assert(uri@ =~= file_prefix() + uri_bytes(prefix + path@.take(0)));
    while i < path.len()
        invariant
            i <= path@.len(),
            uri@ == file_prefix() + uri_bytes(prefix + path@.take(i as int)),
        decreases path@.len() - i,
    {
        push_uri_byte(&mut uri, path[i]);
        proof {
            let next = prefix + path@.take(i + 1);
            assert(next.drop_last() =~= prefix + path@.take(i as int));
            assert(next.last() == path@[i as int]);
            assert(uri@ =~= file_prefix() + uri_bytes(next));
        }
        i += 1;
    }
    assert(path@.take(i as int) =~= path@);
    uri
}

/// The value of a hexadecimal digit.
pub open spec fn hex_byte(b: u8) -> Option<int> {
    if 48 <= b <= 57 {
        Some(b - 48)
    } else if 97 <= b <= 102 {
        Some(b - 97 + 10)
    } else if 65 <= b <= 70 {
        Some(b - 65 + 10)
    } else {
        None
    }
}

/// The value of a hexadecimal digit.
pub fn hex(byte: u8) -> (value: Option<u8>)
    ensures
        match (value, hex_byte(byte)) {
            (Some(v), Some(n)) => v == n && v < 16,
            (None, None) => true,
            _ => false,
        },
{
    if 48 <= byte && byte <= 57 {
        Some(byte - 48)
    } else if 97 <= byte && byte <= 102 {
        Some(byte - 97 + 10)
    } else if 65 <= byte && byte <= 70 {
        Some(byte - 65 + 10)
    } else {
        None
    }
}

/// The bytes that `source` denotes from `i` on, after `done`.
pub open spec fn unescaped(source: Seq<u8>, i: int, done: Seq<u8>) -> Result<Seq<u8>, Seq<char>>
    decreases source.len() - i,
{
    if !(0 <= i < source.len()) {
        Ok(done)
    } else if source[i] != 37 {
        unescaped(source, i + 1, done.push(source[i]))
    } else if i + 2 >= source.len() {
        Err("truncated percent escape in file URI"@)
    } else {
        match (hex_byte(source[i + 1]), hex_byte(source[i + 2])) {
            (Some(high), Some(low)) => unescaped(source, i + 3, done.push((high * 16 + low) as u8)),
            _ => Err("invalid percent escape in file URI"@),
        }
    }
}

/// The byte of an ASCII letter in lower case; other bytes as they are.
pub open spec fn lower_byte(b: u8) -> u8 {
    if 65 <= b <= 90 {
        (b + 32) as u8
    } else {
        b
    }
}

/// Whether two byte strings are equal but for the case of ASCII letters.
pub open spec fn same_ignoring_case(a: Seq<u8>, b: Seq<u8>) -> bool {
    a.len() == b.len() && forall|i: int|
        0 <= i < a.len() ==> lower_byte(#[trigger] a[i]) == lower_byte(b[i])
}

/// The bytes of an ASCII text.
pub open spec fn ascii_bytes(s: Seq<char>) -> Seq<u8> {
    encode_utf8(s)
}

/// The first slash of `b`.
pub open spec fn first_slash(b: Seq<u8>, i: int) -> Option<int>
    decreases b.len() - i,
{
    if !(0 <= i < b.len()) {
        None
    } else if b[i] == 47 {
        Some(i)
    } else {
        first_slash(b, i + 1)
    }
}

/// The part of a file URI that spells the path, still escaped.
pub open spec fn escaped_path(uri: Seq<u8>) -> Result<Seq<u8>, Seq<char>> {
    if uri.len() < 7 || !same_ignoring_case(uri.take(7), ascii_bytes(file_prefix())) {
        Err("LSP location is not a file URI"@)
    } else {
        let rest = uri.skip(7);
        if rest.contains(63) || rest.contains(35) {
            Err("file URI queries and fragments are not supported"@)
        } else if rest.len() > 0 && rest[0] == 47 {
            Ok(rest)
        } else {
            match first_slash(rest, 0) {
                None => Err("remote-host file URIs are not supported"@),
                Some(k) => if same_ignoring_case(rest.take(k), ascii_bytes("localhost"@)) {
                    Ok(rest.skip(k))
                } else {
                    Err("remote-host file URIs are not supported"@)
                },
            }
        }
    }
}

/// Whether a path holds a control character: an ASCII one, or one of those
/// that UTF-8 writes as `C2` followed by `80` to `9F`. A byte `C2` never
/// continues a sequence, so this finds them in every valid run.
pub open spec fn has_control(path: Seq<u8>) -> bool {
    ||| exists|i: int| 0 <= i < path.len() && (#[trigger] path[i] < 32 || path[i] == 127)
    ||| exists|i: int| 0 <= i < path.len() - 1 && path[i] == 0xc2 && 0x80 <= #[trigger] path[i + 1] <= 0x9f
}

/// The path that a URI denotes.
pub open spec fn path_of(uri: Seq<char>) -> Result<Seq<u8>, Seq<char>> {
    match escaped_path(encode_utf8(uri)) {
        Err(reason) => Err(reason),
        Ok(source) => match unescaped(source, 0, Seq::empty()) {
            Err(reason) => Err(reason),
            Ok(path) => if path.contains(0) {
                Err("file URI contains a NUL byte"@)
            } else if has_control(path) {
                Err("file URI path contains a control character"@)
            } else {
                Ok(path)
            },
        },
    }
}

/// Whether `bytes[from..]` starts with `word`, but for the case of ASCII
/// letters.
fn word_matches(bytes: &[u8], from: usize, to: usize, word: &str) -> (yes: bool)
    requires
        from <= to <= bytes@.len(),
    ensures
        yes == same_ignoring_case(
            bytes@.subrange(from as int, to as int),
            ascii_bytes(word@),
        ),
{
    let letters = word.as_bytes();
    let ghost part = bytes@.subrange(from as int, to as int);
    if to - from != letters.len() {
        return false;
    }
    let mut i: usize = 0;
    while i < letters.len()
        invariant
            i <= letters@.len() == part.len(),
            from <= to <= bytes@.len(),
            to - from == part.len(),
            part == bytes@.subrange(from as int, to as int),
            letters@ == ascii_bytes(word@),
            forall|k: int|
                0 <= k < i ==> lower_byte(#[trigger] part[k]) == lower_byte(ascii_bytes(word@)[k]),
        decreases letters@.len() - i,
    {
        assert(part[i as int] == bytes@[from + i]);
        if lower_of(bytes[from + i]) != lower_of(letters[i]) {
            return false;
        }
        i += 1;
    }
    true
}

/// The byte of an ASCII letter in lower case.
fn lower_of(b: u8) -> (lower: u8)
    ensures
        lower == lower_byte(b),
{
    if 65 <= b && b <= 90 {
        b + 32
    } else {
        b
    }
}

/// Finds where the escaped path starts.
fn escaped_path_start(uri: &[u8]) -> (start: Result<usize, String>)
    ensures
        match (start, escaped_path(uri@)) {
            (Ok(k), Ok(rest)) => k <= uri@.len() && rest == uri@.skip(k as int),
            (Err(reason), Err(words)) => reason@ == words,
            _ => false,
        },
{
    proof {
        assert(uri@.len() >= 7 ==> uri@.take(7) =~= uri@.subrange(0, 7));
    }
    if uri.len() < 7 || !word_matches(uri, 0, 7, "file://") {
        return Err(copy_text("LSP location is not a file URI"));
    }
    let ghost rest = uri@.skip(7);
    let mut i: usize = 7;
    while i < uri.len()
        invariant
            7 <= i <= uri@.len(),
            rest == uri@.skip(7),
            uri@.len() >= 7 && same_ignoring_case(uri@.take(7), ascii_bytes(file_prefix())),
            forall|k: int| 0 <= k < i - 7 ==> #[trigger] rest[k] != 63 && rest[k] != 35,
        decreases uri@.len() - i,
    {
        assert(rest[i - 7] == uri@[i as int]);
        if uri[i] == 63 || uri[i] == 35 {
            return Err(copy_text("file URI queries and fragments are not supported"));
        }
        i += 1;
    }
    assert(!rest.contains(63) && !rest.contains(35));
    if uri.len() > 7 && uri[7] == 47 {
        return Ok(7);
    }
    let mut k: usize = 7;
    while k < uri.len() && uri[k] != 47
        invariant
            7 <= k <= uri@.len(),
            rest == uri@.skip(7),
            first_slash(rest, 0) == first_slash(rest, k - 7),
        decreases uri@.len() - k,
    {
        k += 1;
    }
    if k >= uri.len() {
        return Err(copy_text("remote-host file URIs are not supported"));
    }
    assert(first_slash(rest, 0) == Some(k - 7));
    assert(rest.take(k - 7) =~= uri@.subrange(7, k as int));
    if !word_matches(uri, 7, k, "localhost") {
        return Err(copy_text("remote-host file URIs are not supported"));
    }
    assert(rest.skip(k - 7) =~= uri@.skip(k as int));
    Ok(k)
}

/// Decodes percent escapes from `start` on.
fn decode_escapes(uri: &[u8], start: usize) -> (path: Result<Vec<u8>, String>)
    requires
        start <= uri@.len(),
    ensures
        match (path, unescaped(uri@.skip(start as int), 0, Seq::empty())) {
            (Ok(bytes), Ok(expected)) => bytes@ == expected,
            (Err(reason), Err(words)) => reason@ == words,
            _ => false,
        },
{
    let ghost source = uri@.skip(start as int);
    let mut bytes: Vec<u8> = Vec::new();
    let mut i: usize = start;
    while i < uri.len()
        invariant
            start <= i <= uri@.len(),
            source == uri@.skip(start as int),
            unescaped(source, 0, Seq::empty()) == unescaped(source, i - start, bytes@),
        decreases uri@.len() - i,
    {
        assert(source[i - start] == uri@[i as int]);
        if uri[i] == 37 {
            if uri.len() - i <= 2 {
                return Err(copy_text("truncated percent escape in file URI"));
            }
            assert(source[i - start + 1] == uri@[i + 1]);
            assert(source[i - start + 2] == uri@[i + 2]);
            match (hex(uri[i + 1]), hex(uri[i + 2])) {
                (Some(high), Some(low)) => {
                    bytes.push(high * 16 + low);
                    i += 3;
                },
                _ => {
                    return Err(copy_text("invalid percent escape in file URI"));
                },
            }
        } else {
            bytes.push(uri[i]);
            i += 1;
        }
    }
    Ok(bytes)
}

/// Whether a path holds a control character.
pub fn decoded_path_contains_control(bytes: &[u8]) -> (yes: bool)
    ensures
        yes == has_control(bytes@),
{
    let mut i: usize = 0;
    while i < bytes.len()
        invariant
            i <= bytes@.len(),
            forall|k: int| 0 <= k < i ==> #[trigger] bytes@[k] >= 32 && bytes@[k] != 127,
            forall|k: int|
                0 <= k < i && k < bytes@.len() - 1 ==> !(bytes@[k] == 0xc2 && 0x80
                    <= #[trigger] bytes@[k + 1] <= 0x9f),
        decreases bytes@.len() - i,
    {
        if bytes[i] < 32 || bytes[i] == 127 {
            return true;
        }
        if bytes.len() - i > 1 && bytes[i] == 0xc2 && 0x80 <= bytes[i + 1] && bytes[i + 1] <= 0x9f {
            return true;
        }
        i += 1;
    }
    false
}

/// The path that a local file URI denotes.
pub fn file_uri_to_path(uri: &str) -> (path: Result<Vec<u8>, String>)
    ensures
        match (path, path_of(uri@)) {
            (Ok(bytes), Ok(expected)) => bytes@ == expected,
            (Err(reason), Err(words)) => reason@ == words,
            _ => false,
        },
{
    let source = uri.as_bytes();
    let start = match escaped_path_start(source) {
        Ok(start) => start,
        Err(reason) => {
            return Err(reason);
        },
    };
    let bytes = match decode_escapes(source, start) {
        Ok(bytes) => bytes,
        Err(reason) => {
            return Err(reason);
        },
    };
    let mut i: usize = 0;
    while i < bytes.len()
        invariant
            i <= bytes@.len(),
            path_of(uri@) == (if bytes@.contains(0) {
                Err::<Seq<u8>, Seq<char>>("file URI contains a NUL byte"@)
            } else if has_control(bytes@) {
                Err("file URI path contains a control character"@)
            } else {
                Ok(bytes@)
            }),
            forall|k: int| 0 <= k < i ==> bytes@[k] != 0,
        decreases bytes@.len() - i,
    {
        if bytes[i] == 0 {
            return Err(copy_text("file URI contains a NUL byte"));
        }
        i += 1;
    }
    if decoded_path_contains_control(bytes.as_slice()) {
        return Err(copy_text("file URI path contains a control character"));
    }
    Ok(bytes)
}

/// The bytes of an encoded path, one for each scalar value.
proof fn lemma_uri_is_ascii(path: Seq<u8>)
    ensures
        is_ascii_chars(uri_bytes(path)),
        forall|i: int|
            0 <= i < uri_bytes(path).len() ==> #[trigger] uri_bytes(path)[i] != '?' && uri_bytes(
                path,
            )[i] != '#',
    decreases path.len(),
{
    if path.len() > 0 {
        lemma_uri_is_ascii(path.drop_last());
    }
}

proof fn lemma_uri_prefix(path: Seq<u8>, k: int)
    requires
        0 <= k < path.len(),
    ensures
        uri_bytes(path.take(k + 1)) == uri_bytes(path.take(k)) + uri_byte(path[k]),
{
    assert(path.take(k + 1).drop_last() =~= path.take(k));
    assert(path.take(k + 1).last() == path[k]);
}

proof fn lemma_uri_split(path: Seq<u8>, k: int) -> (rest: Seq<char>)
    requires
        0 <= k <= path.len(),
    ensures
        uri_bytes(path) == uri_bytes(path.take(k)) + rest,
    decreases path.len() - k,
{
    if k == path.len() {
        assert(path.take(k) =~= path);
        assert(uri_bytes(path) =~= uri_bytes(path.take(k)) + Seq::<char>::empty());
        Seq::empty()
    } else {
        let tail = lemma_uri_split(path, k + 1);
        lemma_uri_prefix(path, k);
        let rest = uri_byte(path[k]) + tail;
        assert(uri_bytes(path) =~= uri_bytes(path.take(k)) + rest);
        rest
    }
}

/// Decoding what was encoded gives the bytes back.
proof fn lemma_unescape_rest(path: Seq<u8>, source: Seq<u8>, k: int)
    requires
        0 <= k <= path.len(),
        source.len() == uri_bytes(path).len(),
        forall|i: int| 0 <= i < source.len() ==> #[trigger] source[i] == uri_bytes(path)[i] as u8,
    ensures
        unescaped(source, uri_bytes(path.take(k)).len() as int, path.take(k)) == Ok::<
            Seq<u8>,
            Seq<char>,
        >(path),
    decreases path.len() - k,
{
    let at = uri_bytes(path.take(k)).len() as int;
    if k == path.len() {
        assert(path.take(k) =~= path);
    } else {
        let rest = lemma_uri_split(path, k + 1);
        lemma_uri_prefix(path, k);
        let b = path[k];
        let code = uri_byte(b);
        assert(path.take(k).push(b) =~= path.take(k + 1));
        assert forall|m: int| 0 <= m < code.len() implies source[at + m] == code[m] as u8 by {
            assert(uri_bytes(path)[at + m] == code[m]);
        }
        assert(source[at] == code[0] as u8);
        if is_plain(b) {
            assert(code[0] as u8 == b);
        } else {
            assert(source[at + 1] == code[1] as u8);
            assert(source[at + 2] == code[2] as u8);
            assert(hex_byte(source[at + 1]) == Some(b as int / 16));
            assert(hex_byte(source[at + 2]) == Some(b as int % 16));
            assert((b as int / 16) * 16 + b as int % 16 == b as int);
        }
        lemma_unescape_rest(path, source, k + 1);
    }
}

/// Whether a text is the start of a file URI, in any letter case.
pub open spec fn is_file_scheme(scheme: Seq<char>) -> bool {
    same_ignoring_case(encode_utf8(scheme), ascii_bytes(file_prefix()))
}

/// Whether a host is this machine: none at all, or `localhost` in any letter
/// case.
pub open spec fn is_local_host(host: Seq<char>) -> bool {
    host.len() == 0 || same_ignoring_case(encode_utf8(host), ascii_bytes("localhost"@))
}

proof fn lemma_first_slash(b: Seq<u8>, i: int, k: int)
    requires
        0 <= i <= k < b.len(),
        b[k] == 47,
        forall|j: int| 0 <= j < k ==> #[trigger] b[j] != 47,
    ensures
        first_slash(b, i) == Some(k),
    decreases k - i,
{
    if i < k {
        lemma_first_slash(b, i + 1, k);
    }
}

/// A file URI in parts: what follows the scheme.
proof fn lemma_uri_parts(scheme: Seq<char>, rest: Seq<char>)
    requires
        is_file_scheme(scheme),
    ensures
        ({
            let uri = encode_utf8(scheme + rest);
            &&& uri.len() >= 7
            &&& same_ignoring_case(uri.take(7), ascii_bytes(file_prefix()))
            &&& uri.skip(7) == encode_utf8(rest)
        }),
{
    reveal_strlit("file://");
    assert(is_ascii_chars(file_prefix()));
    is_ascii_chars_encode_utf8(file_prefix());
    lemma_encode_add(scheme, rest);
    let uri = encode_utf8(scheme + rest);
    assert(uri.take(7) =~= encode_utf8(scheme));
    assert(uri.skip(7) =~= encode_utf8(rest));
}

/// The encoded path as bytes: it starts with a slash and leads back to the path.
proof fn lemma_uri_path(path: Seq<u8>)
    requires
        path.len() > 0,
        path[0] == 47,
        !has_control(path),
    ensures
        ({
            let bytes = encode_utf8(uri_bytes(path));
            &&& bytes.len() > 0
            &&& bytes[0] == 47
            &&& !bytes.contains(63)
            &&& !bytes.contains(35)
            &&& unescaped(bytes, 0, Seq::empty()) == Ok::<Seq<u8>, Seq<char>>(path)
        }),
{
    let text = uri_bytes(path);
    let bytes = encode_utf8(text);
    lemma_uri_is_ascii(path);
    is_ascii_chars_encode_utf8(text);
    assert forall|i: int| 0 <= i < bytes.len() implies #[trigger] bytes[i] == text[i] as u8
        && bytes[i] != 63 && bytes[i] != 35 by {
        assert(text[i] != '?' && text[i] != '#');
    }
    let tail = lemma_uri_split(path, 1);
    assert(path.take(1).drop_last() =~= Seq::<u8>::empty());
    assert(uri_bytes(path.take(1).drop_last()) =~= Seq::<char>::empty());
    assert(path.take(1).last() == 47);
    assert(text[0] == uri_byte(47)[0]);
    lemma_unescape_rest(path, bytes, 0);
    assert(path.take(0) =~= Seq::<u8>::empty());
}

/// The scheme of a URI and the host `localhost` may be written in any letter
/// case: the URI leads to the same path.
pub proof fn law_spelling_does_not_matter(scheme: Seq<char>, host: Seq<char>, path: Seq<u8>)
    requires
        is_file_scheme(scheme),
        is_local_host(host),
        path.len() > 0,
        path[0] == 47,
        !has_control(path),
    ensures
        path_of(scheme + (host + uri_bytes(path))) == Ok::<Seq<u8>, Seq<char>>(path),
{
    let text = uri_bytes(path);
    let bytes = encode_utf8(text);
    let front = encode_utf8(host);
    let rest = encode_utf8(host + text);
    lemma_uri_parts(scheme, host + text);
    lemma_uri_path(path);
    lemma_encode_add(host, text);
    reveal_strlit("localhost");
    let local = "localhost"@;
    assert(is_ascii_chars(local));
    is_ascii_chars_encode_utf8(local);
    assert(!path.contains(0)) by {
        if path.contains(0) {
            let i = choose|i: int| 0 <= i < path.len() && path[i] == 0;
            assert(path[i] < 32);
        }
    }
    if host.len() == 0 {
        assert(rest =~= bytes);
    } else {
        let k = front.len() as int;
        assert forall|j: int| 0 <= j < k implies #[trigger] front[j] != 47 && front[j] != 63
            && front[j] != 35 by {
            assert(lower_byte(front[j]) == lower_byte(ascii_bytes(local)[j]));
            assert(ascii_bytes(local)[j] == local[j] as u8);
        }
        assert forall|j: int| 0 <= j < rest.len() implies #[trigger] rest[j] == (if j < k {
            front[j]
        } else {
            bytes[j - k]
        }) by {}
        assert(!rest.contains(63) && !rest.contains(35)) by {
            assert forall|j: int| 0 <= j < rest.len() implies #[trigger] rest[j] != 63 && rest[j]
                != 35 by {
                if j >= k {
                    assert(bytes.contains(bytes[j - k]));
                }
            }
        }
        lemma_first_slash(rest, 0, k);
        assert(rest.take(k) =~= front);
        assert(rest.skip(k) =~= bytes);
    }
}

/// The URI of an absolute path without control characters leads back to that
/// path, byte for byte, also where the path is not valid UTF-8.
pub proof fn law_uri_round_trip(path: Seq<u8>)
    requires
        path.len() > 0,
        path[0] == 47,
        !has_control(path),
    ensures
        path_of(uri_of(path)) == Ok::<Seq<u8>, Seq<char>>(path),
{
    law_spelling_does_not_matter(file_prefix(), Seq::empty(), path);
    assert(uri_of(path) =~= file_prefix() + (Seq::<char>::empty() + uri_bytes(path)));
}

/// A URI with any other host is refused.
pub proof fn law_other_hosts_are_refused(scheme: Seq<char>, host: Seq<char>, rest: Seq<char>)
    requires
        is_file_scheme(scheme),
        !is_local_host(host),
        !encode_utf8(host).contains(47),
        rest.len() > 0 ==> rest[0] == '/',
    ensures
        path_of(scheme + (host + rest)) is Err,
{
    let front = encode_utf8(host);
    let all = encode_utf8(host + rest);
    lemma_uri_parts(scheme, host + rest);
    lemma_encode_add(host, rest);
    lemma_utf8_len_bounds(host);
    let k = front.len() as int;
    assert forall|j: int| 0 <= j < k implies #[trigger] all[j] == front[j] && all[j] != 47 by {
        assert(front.contains(front[j]));
    }
    if rest.len() > 0 {
        let slash = seq!['/'];
        assert(rest =~= slash + rest.drop_first());
        lemma_encode_add(slash, rest.drop_first());
        assert(is_ascii_chars(slash));
        is_ascii_chars_encode_utf8(slash);
        assert(all[k] == encode_utf8(slash)[0]);
        lemma_first_slash(all, 0, k);
        assert(all.take(k) =~= front);
    } else {
        assert(encode_utf8(rest) =~= Seq::<u8>::empty());
        lemma_no_first_slash(all, 0);
    }
}

proof fn lemma_no_first_slash(b: Seq<u8>, i: int)
    requires
        0 <= i <= b.len(),
        forall|j: int| 0 <= j < b.len() ==> #[trigger] b[j] != 47,
    ensures
        first_slash(b, i) is None,
    decreases b.len() - i,
{
    if i < b.len() {
        lemma_no_first_slash(b, i + 1);
    }
}

/// A URI with a query or a fragment is refused.
pub proof fn law_queries_are_refused(
    scheme: Seq<char>,
    before: Seq<char>,
    mark: char,
    behind: Seq<char>,
)
    requires
        is_file_scheme(scheme),
        mark == '?' || mark == '#',
    ensures
        path_of(scheme + (before + seq![mark] + behind)) is Err,
{
    let one = seq![mark];
    let rest = before + one + behind;
    lemma_uri_parts(scheme, rest);
    lemma_encode_add(before + one, behind);
    lemma_encode_add(before, one);
    assert(is_ascii_chars(one));
    is_ascii_chars_encode_utf8(one);
    let bytes = encode_utf8(rest);
    let at = encode_utf8(before).len() as int;
    assert(bytes[at] == encode_utf8(one)[0]);
    assert(bytes.contains(bytes[at]));
}

/// Different absolute paths without control characters have different URIs.
pub proof fn law_uri_keeps_identity(a: Seq<u8>, b: Seq<u8>)
    requires
        a.len() > 0 && a[0] == 47 && !has_control(a),
        b.len() > 0 && b[0] == 47 && !has_control(b),
        uri_of(a) == uri_of(b),
    ensures
        a == b,
{
    law_uri_round_trip(a);
    law_uri_round_trip(b);
}

/// `done` followed by one more segment of a path: empty segments and `.` stay
/// out, and `..` takes the last segment away.
pub open spec fn with_segment(done: Seq<Seq<u8>>, segment: Seq<u8>) -> Seq<Seq<u8>> {
    if segment.len() == 0 || segment == seq![46u8] {
        done
    } else if segment == seq![46u8, 46u8] {
        if done.len() > 0 {
            done.drop_last()
        } else {
            done
        }
    } else {
        done.push(segment)
    }
}

/// The segments of a path without `.` and `..`, where `path[start..i]` belongs
/// to the current segment and `done` came before.
pub open spec fn clean_segments(path: Seq<u8>, start: int, i: int, done: Seq<Seq<u8>>) -> Seq<
    Seq<u8>,
>
    decreases path.len() - i,
{
    if !(0 <= start <= i < path.len()) {
        with_segment(done, path.subrange(start, path.len() as int))
    } else if path[i] == 47 {
        clean_segments(path, i + 1, i + 1, with_segment(done, path.subrange(start, i)))
    } else {
        clean_segments(path, start, i + 1, done)
    }
}

/// Segments with a slash before each.
pub open spec fn slashed(segments: Seq<Seq<u8>>) -> Seq<u8>
    decreases segments.len(),
{
    if segments.len() == 0 {
        Seq::empty()
    } else {
        slashed(segments.drop_last()) + seq![47u8] + segments.last()
    }
}

/// The absolute path with these segments.
pub open spec fn absolute(segments: Seq<Seq<u8>>) -> Seq<u8> {
    if segments.len() == 0 {
        seq![47u8]
    } else {
        slashed(segments)
    }
}

/// An absolute path without `.`, `..` and repeated slashes.
pub open spec fn lexical(path: Seq<u8>) -> Seq<u8> {
    absolute(clean_segments(path, 0, 0, Seq::empty()))
}

/// Whether a segment counts as a component of a path.
pub open spec fn counts(segment: Seq<u8>) -> int {
    if segment.len() == 0 || segment == seq![46u8] {
        0
    } else {
        1
    }
}

/// How many components follow, where `path[start..i]` belongs to the current
/// segment.
pub open spec fn components_from(path: Seq<u8>, start: int, i: int) -> int
    decreases path.len() - i,
{
    if !(0 <= start <= i < path.len()) {
        counts(path.subrange(start, path.len() as int))
    } else if path[i] == 47 {
        counts(path.subrange(start, i)) + components_from(path, i + 1, i + 1)
    } else {
        components_from(path, start, i + 1)
    }
}

/// The components of an absolute path, the root among them.
pub open spec fn component_count(path: Seq<u8>) -> int {
    1 + components_from(path, 0, 0)
}

/// The bytes `path[from..to]`.
fn part_of(path: &[u8], from: usize, to: usize) -> (part: Vec<u8>)
    requires
        from <= to <= path@.len(),
    ensures
        part@ == path@.subrange(from as int, to as int),
{
    let mut part: Vec<u8> = Vec::new();
    let mut i: usize = from;
    while i < to
        invariant
            from <= i <= to <= path@.len(),
            part@ == path@.subrange(from as int, i as int),
        decreases to - i,
    {
        part.push(path[i]);
        assert(path@.subrange(from as int, i + 1) =~= path@.subrange(from as int, i as int).push(
            path@[i as int],
        ));
        i += 1;
    }
    part
}

/// The contents of a list of byte strings.
pub open spec fn parts_of(parts: Seq<Vec<u8>>) -> Seq<Seq<u8>> {
    parts.map_values(|part: Vec<u8>| part@)
}

/// Adds one segment.
fn add_segment(done: &mut Vec<Vec<u8>>, segment: Vec<u8>)
    ensures
        parts_of(final(done)@) == with_segment(parts_of(old(done)@), segment@),
{
    let ghost before = done@;
    proof {
        if segment@.len() == 1 {
            assert(segment@ =~= seq![46u8] <==> segment@[0] == 46);
        }
        if segment@.len() == 2 {
            assert(segment@ =~= seq![46u8, 46u8] <==> (segment@[0] == 46 && segment@[1] == 46));
        }
    }
    if segment.len() == 0 || (segment.len() == 1 && segment[0] == 46) {
    } else if segment.len() == 2 && segment[0] == 46 && segment[1] == 46 {
        if done.len() > 0 {
            let _ = done.pop();
            assert(parts_of(done@) =~= parts_of(before).drop_last());
        }
    } else {
        done.push(segment);
        assert(parts_of(done@) =~= parts_of(before).push(segment@));
    }
}

/// Normalizes only URI spelling aliases of an absolute path; it performs no
/// file system access.
pub fn lexically_normalized_diagnostics_path(path: &[u8]) -> (normalized: Vec<u8>)
    ensures
        normalized@ == lexical(path@),
{
    let mut segments: Vec<Vec<u8>> = Vec::new();
    let mut start: usize = 0;
    let mut i: usize = 0;
    assert(parts_of(segments@) =~= Seq::<Seq<u8>>::empty());
    while i < path.len()
        invariant
            start <= i <= path@.len(),
            clean_segments(path@, 0, 0, Seq::empty()) == clean_segments(
                path@,
                start as int,
                i as int,
                parts_of(segments@),
            ),
        decreases path@.len() - i,
    {
        if path[i] == 47 {
            add_segment(&mut segments, part_of(path, start, i));
            start = i + 1;
        }
        i += 1;
    }
    add_segment(&mut segments, part_of(path, start, path.len()));
    let mut normalized: Vec<u8> = Vec::new();
    if segments.len() == 0 {
        normalized.push(47);
        assert(normalized@ =~= seq![47u8]);
        return normalized;
    }
    let ghost parts = parts_of(segments@);
    let mut k: usize = 0;
    assert(parts.take(0) =~= Seq::<Seq<u8>>::empty());
    assert(slashed(parts.take(0)) =~= Seq::<u8>::empty());
    while k < segments.len()
        invariant
            k <= segments@.len(),
            parts == parts_of(segments@),
            normalized@ == slashed(parts.take(k as int)),
        decreases segments@.len() - k,
    {
        let ghost before = normalized@;
        normalized.push(47);
        let mut m: usize = 0;
        let segment = &segments[k];
        assert(segment@.take(0) =~= Seq::<u8>::empty());
        assert(normalized@ =~= before + seq![47u8] + segment@.take(0));
        while m < segment.len()
            invariant
                m <= segment@.len(),
                normalized@ == before + seq![47u8] + segment@.take(m as int),
            decreases segment@.len() - m,
        {
            normalized.push(segment[m]);
            assert(segment@.take(m + 1) =~= segment@.take(m as int).push(segment@[m as int]));
            assert(normalized@ =~= before + seq![47u8] + segment@.take(m + 1));
            m += 1;
        }
        proof {
            assert(segment@.take(m as int) =~= segment@);
            assert(parts.take(k + 1).drop_last() =~= parts.take(k as int));
            assert(parts.take(k + 1).last() == segment@);
        }
        k += 1;
    }
    assert(parts.take(k as int) =~= parts);
    normalized
}

proof fn lemma_components_nonnegative(path: Seq<u8>, start: int, i: int)
    ensures
        components_from(path, start, i) >= 0,
    decreases path.len() - i,
{
    if 0 <= start <= i < path.len() {
        if path[i] == 47 {
            lemma_components_nonnegative(path, i + 1, i + 1);
        } else {
            lemma_components_nonnegative(path, start, i + 1);
        }
    }
}

/// Whether an absolute path has more than `limit` components, the root among
/// them.
pub(crate) fn has_more_components(path: &[u8], limit: usize) -> (yes: bool)
    requires
        limit < usize::MAX,
    ensures
        yes == (component_count(path@) > limit),
{
    let mut n: usize = 1;
    let mut start: usize = 0;
    let mut i: usize = 0;
    while i < path.len()
        invariant
            start <= i <= path@.len(),
            limit < usize::MAX,
            n <= limit + 1,
            component_count(path@) == n + components_from(path@, start as int, i as int),
        decreases path@.len() - i,
    {
        proof {
            lemma_components_nonnegative(path@, start as int, i as int);
        }
        if n > limit {
            return true;
        }
        if path[i] == 47 {
            if counted(path, start, i) {
                n += 1;
            }
            start = i + 1;
        }
        i += 1;
    }
    if n > limit {
        proof {
            lemma_components_nonnegative(path@, start as int, i as int);
        }
        return true;
    }
    if counted(path, start, path.len()) {
        n += 1;
    }
    n > limit
}

/// Whether `path[from..to]` counts as a component.
fn counted(path: &[u8], from: usize, to: usize) -> (yes: bool)
    requires
        from <= to <= path@.len(),
    ensures
        counts(path@.subrange(from as int, to as int)) == (if yes {
            1int
        } else {
            0int
        }),
{
    let ghost part = path@.subrange(from as int, to as int);
    proof {
        if part.len() == 1 {
            assert(part =~= seq![46u8] <==> part[0] == 46);
        }
    }
    !(from == to || (to - from == 1 && path[from] == 46))
}

} // verus!
