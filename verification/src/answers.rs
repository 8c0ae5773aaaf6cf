//! What a client makes of an answer: read as the server reads requests, its
//! head announces the length of its body and what becomes of the connection.
use vstd::prelude::*;
use vstd::utf8::{encode_scalar, encode_utf8, is_ascii_chars, is_ascii_chars_encode_utf8};

use crate::http::{
    bad_body_text, batch_gives, decimal, head_request, reason, reply_gives, response_bytes,
    route_of, with_header, with_headers,
};
use crate::http::{Reply, Request, Route};
use crate::scalar::Scalar;
use crate::text::{is_space, lines, number, same_ignoring_case, seek, trim, word};
use crate::wire::{
    digits_read_back, lines_end_with_newlines, numbers_are_decimal, reads_as,
    search_finds_the_first, trimming_cuts_spaces_only,
};

verus! {

/// The characters of a number.
pub open spec fn digits(n: nat) -> Seq<char> {
    decimal(n).map_values(|b: u8| b as char)
}

proof fn lemma_encode_joined(a: Seq<char>, b: Seq<char>)
    ensures
        encode_utf8(a + b) == encode_utf8(a) + encode_utf8(b),
    decreases a.len(),
{
    if a.len() == 0 {
        assert(a + b =~= b);
        assert(encode_utf8(a) + encode_utf8(b) =~= encode_utf8(b));
    } else {
        assert((a + b).drop_first() =~= a.drop_first() + b);
        lemma_encode_joined(a.drop_first(), b);
        let first = encode_scalar(a[0] as u32);
        assert(encode_utf8(a + b) == first + (encode_utf8(a.drop_first()) + encode_utf8(b)));
        assert(first + (encode_utf8(a.drop_first()) + encode_utf8(b)) =~= (first + encode_utf8(
            a.drop_first(),
        )) + encode_utf8(b));
    }
}

proof fn lemma_digits_encode(n: nat)
    ensures
        encode_utf8(digits(n)) == decimal(n),
        digits(n).len() > 0,
        forall|i: int| 0 <= i < digits(n).len() ==> 48 <= (#[trigger] digits(n)[i]) as u32 <= 57,
        number(digits(n)) == if n <= usize::MAX {
            Some(n as usize)
        } else {
            None
        },
{
    let d = digits(n);
    digits_read_back(n);
    assert forall|i: int| 0 <= i < d.len() implies 48 <= (#[trigger] d[i]) as u32 <= 57 by {
        assert(48 <= decimal(n)[i] <= 57);
    }
    assert(is_ascii_chars(d));
    is_ascii_chars_encode_utf8(d);
    assert forall|i: int| 0 <= i < d.len() implies encode_utf8(d)[i] == decimal(n)[i] by {
        assert(d[i] as u8 == encode_utf8(d)[i]);
        assert(48 <= decimal(n)[i] <= 57);
    }
    assert(encode_utf8(d) =~= decimal(n));
    lemma_same_value(decimal(n), d);
    assert(d[0] != '+');
    numbers_are_decimal(d, d);
}

proof fn lemma_same_value(bytes: Seq<u8>, chars: Seq<char>)
    requires
        bytes.len() == chars.len(),
        forall|i: int| 0 <= i < bytes.len() ==> (#[trigger] chars[i]) as u32 == bytes[i],
    ensures
        chars.fold_left(0int, |v: int, c: char| v * 10 + (c as u32 - 48)) == bytes.fold_left(
            0int,
            |v: int, b: u8| v * 10 + (b - 48),
        ),
    decreases bytes.len(),
{
    if bytes.len() > 0 {
        assert forall|i: int| 0 <= i < bytes.len() - 1 implies (
        #[trigger] chars.drop_last()[i]) as u32 == bytes.drop_last()[i] by {
            assert(chars[i] as u32 == bytes[i]);
        }
        lemma_same_value(bytes.drop_last(), chars.drop_last());
        assert(chars[chars.len() - 1] as u32 == bytes[bytes.len() - 1]);
    }
}

// ---------- lines ----------

proof fn lemma_seek_shift(s: Seq<char>, c: char, i: int, k: int)
    requires
        0 <= i <= k <= s.len(),
    ensures
        seek(s, c, k) == i + seek(s.skip(i), c, k - i),
    decreases s.len() - k,
{
    if k < s.len() && s[k] != c {
        lemma_seek_shift(s, c, i, k + 1);
    }
}

proof fn lemma_lines_shift(s: Seq<char>, i: int, k: int)
    requires
        0 <= i <= k <= s.len(),
    ensures
        lines(s, k) == lines(s.skip(i), k - i),
    decreases s.len() - k,
{
    if k < s.len() {
        let t = s.skip(i);
        lemma_seek_shift(s, '\n', i, k);
        search_finds_the_first(s, '\n', k);
        let to = seek(s, '\n', k);
        assert(s.subrange(k, to) =~= t.subrange(k - i, to - i));
        assert(s.subrange(k, s.len() as int) =~= t.subrange(k - i, t.len() as int));
        if to < s.len() {
            lemma_lines_shift(s, i, to + 1);
        }
    }
}

/// A line that ends with a carriage return and a newline comes off.
proof fn lemma_line_off(line: Seq<char>, rest: Seq<char>)
    requires
        forall|k: int| 0 <= k < line.len() ==> #[trigger] line[k] != '\n',
    ensures
        lines(line + seq!['\r', '\n'] + rest, 0) == seq![line] + lines(rest, 0),
{
    let s = line + seq!['\r', '\n'] + rest;
    let n = line.len() as int;
    let at = lines_end_with_newlines(s, 0);
    assert(s[n] == '\r' && s[n + 1] == '\n');
    if at < n {
        assert(s[at] == line[at]);
    }
    if at > n + 1 {
        assert(s[n + 1] != '\n');
    }
    assert(at == n + 1);
    assert(s.subrange(0, n) =~= line);
    assert(s.skip(n + 2) =~= rest);
    lemma_lines_shift(s, n + 2, n + 2);
}

proof fn lemma_one_line(line: Seq<char>)
    requires
        line.len() > 0,
        forall|k: int| 0 <= k < line.len() ==> #[trigger] line[k] != '\n',
    ensures
        lines(line, 0) == seq![line],
{
    let at = lines_end_with_newlines(line, 0);
    if at < line.len() {
        assert(line[at] != '\n');
    }
    assert(line.subrange(0, line.len() as int) =~= line);
}

// ---------- headers ----------

proof fn lemma_trimmed(s: Seq<char>, before: Seq<char>)
    requires
        s.len() > 0,
        !is_space(s[0]),
        !is_space(s[s.len() - 1]),
        forall|k: int| 0 <= k < before.len() ==> is_space(#[trigger] before[k]),
    ensures
        trim(before + s) == s,
{
    let t = before + s;
    let cut = trimming_cuts_spaces_only(t);
    let n = before.len() as int;
    assert(t[n] == s[0] && t[t.len() - 1] == s[s.len() - 1]);
    if cut.0 > n || cut.1 < t.len() {
        if cut.0 > n {
            assert(is_space(t[n]));
        } else {
            assert(is_space(t[t.len() - 1]));
        }
    }
    if cut.0 < n {
        assert(t[cut.0] == before[cut.0]);
    }
    assert(t.subrange(n, t.len() as int) =~= s);
}

/// The line of a key and a value is read as that key and that value.
proof fn lemma_header_line(key: Seq<char>, value: Seq<char>)
    requires
        key.len() > 0,
        forall|k: int| 0 <= k < key.len() ==> #[trigger] key[k] != ':' && !is_space(key[k]),
        value.len() > 0,
        !is_space(value[0]),
        !is_space(value[value.len() - 1]),
    ensures
        ({
            let line = key + seq![':', ' '] + value;
            let c = seek(line, ':', 0);
            &&& c == key.len()
            &&& trim(line.subrange(0, c)) == key
            &&& trim(line.subrange(c + 1, line.len() as int)) == value
        }),
{
    let line = key + seq![':', ' '] + value;
    let n = key.len() as int;
    lemma_key(key, seq![' '] + value);
    assert(line =~= key + seq![':'] + (seq![' '] + value));
    assert(line.subrange(n + 1, line.len() as int) =~= seq![' '] + value);
    lemma_trimmed(value, seq![' ']);
}

/// The key of a line that starts with it and a colon.
proof fn lemma_key(key: Seq<char>, rest: Seq<char>)
    requires
        key.len() > 0,
        forall|k: int| 0 <= k < key.len() ==> #[trigger] key[k] != ':' && !is_space(key[k]),
    ensures
        ({
            let line = key + seq![':'] + rest;
            let c = seek(line, ':', 0);
            &&& c == key.len()
            &&& trim(line.subrange(0, c)) == key
        }),
{
    let line = key + seq![':'] + rest;
    let n = key.len() as int;
    search_finds_the_first(line, ':', 0);
    let c = seek(line, ':', 0);
    assert(line[n] == ':');
    if c < n {
        assert(line[c] == key[c]);
    }
    if c > n {
        assert(line[n] != ':');
    }
    assert(line.subrange(0, n) =~= key);
    assert(key[0] != ':' && key[n - 1] != ':');
    lemma_trimmed(key, Seq::empty());
    assert(Seq::<char>::empty() + key =~= key);
}

// ---------- answers ----------

/// The head of an answer, as text.
spec fn head_text(status: u16, ctype: Seq<char>, len: nat, keep_alive: bool) -> Seq<char> {
    status_line(status) + seq!['\r', '\n'] + (type_line(ctype) + seq!['\r', '\n'] + (length_line(
        len,
    ) + seq!['\r', '\n'] + connection_line(keep_alive)))
}

spec fn status_line(status: u16) -> Seq<char> {
    "HTTP/1.1 "@ + digits(status as nat) + " "@ + reason(status)
}

spec fn type_line(ctype: Seq<char>) -> Seq<char> {
    "Content-Type"@ + seq![':'] + (seq![' '] + ctype)
}

spec fn length_line(len: nat) -> Seq<char> {
    "Content-Length"@ + seq![':', ' '] + digits(len)
}

spec fn connection_line(keep_alive: bool) -> Seq<char> {
    "Connection"@ + seq![':', ' '] + if keep_alive {
        "keep-alive"@
    } else {
        "close"@
    }
}

proof fn lemma_reveal_parts()
    ensures
        "\r\nContent-Type: "@ == seq!['\r', '\n'] + ("Content-Type"@ + seq![':', ' ']),
        "\r\nContent-Length: "@ == seq!['\r', '\n'] + ("Content-Length"@ + seq![':', ' ']),
        "\r\nConnection: "@ == seq!['\r', '\n'] + ("Connection"@ + seq![':', ' ']),
{
    reveal_strlit("\r\nContent-Type: ");
    reveal_strlit("Content-Type");
    reveal_strlit("\r\nContent-Length: ");
    reveal_strlit("Content-Length");
    reveal_strlit("\r\nConnection: ");
    reveal_strlit("Connection");
    assert("\r\nContent-Type: "@ =~= seq!['\r', '\n'] + ("Content-Type"@ + seq![':', ' ']));
    assert("\r\nContent-Length: "@ =~= seq!['\r', '\n'] + ("Content-Length"@ + seq![':', ' ']));
    assert("\r\nConnection: "@ =~= seq!['\r', '\n'] + ("Connection"@ + seq![':', ' ']));
}

proof fn lemma_end()
    ensures
        encode_utf8("\r\n\r\n"@) == seq![13u8, 10u8, 13u8, 10u8],
{
    reveal_strlit("\r\n\r\n");
    let s = "\r\n\r\n"@;
    assert(is_ascii_chars(s));
    is_ascii_chars_encode_utf8(s);
    assert(s[0] as u8 == encode_utf8(s)[0] && s[1] as u8 == encode_utf8(s)[1] && s[2] as u8
        == encode_utf8(s)[2] && s[3] as u8 == encode_utf8(s)[3]);
    assert(encode_utf8(s) =~= seq![13u8, 10u8, 13u8, 10u8]);
}

proof fn lemma_answer_is_head_and_body(
    status: u16,
    ctype: Seq<char>,
    body: Seq<u8>,
    keep_alive: bool,
)
    ensures
        response_bytes(status, ctype, body, keep_alive) == encode_utf8(
            head_text(status, ctype, body.len(), keep_alive),
        ) + seq![13u8, 10u8, 13u8, 10u8] + body,
{
    let conn = if keep_alive {
        "keep-alive"@
    } else {
        "close"@
    };
    lemma_reveal_parts();
    lemma_end();
    lemma_digits_encode(status as nat);
    lemma_digits_encode(body.len());
    let a = "HTTP/1.1 "@ + digits(status as nat);
    let b = a + " "@;
    let c = b + reason(status);
    let d = c + "\r\nContent-Type: "@;
    let e = d + ctype;
    let f = e + "\r\nContent-Length: "@;
    let g = f + digits(body.len());
    let h = g + "\r\nConnection: "@;
    let i = h + conn;
    lemma_encode_joined("HTTP/1.1 "@, digits(status as nat));
    lemma_encode_joined(a, " "@);
    lemma_encode_joined(b, reason(status));
    lemma_encode_joined(c, "\r\nContent-Type: "@);
    lemma_encode_joined(d, ctype);
    lemma_encode_joined(e, "\r\nContent-Length: "@);
    lemma_encode_joined(f, digits(body.len()));
    lemma_encode_joined(g, "\r\nConnection: "@);
    lemma_encode_joined(h, conn);
    assert(i =~= head_text(status, ctype, body.len(), keep_alive));
}

proof fn lemma_lines_of_head(status: u16, ctype: Seq<char>, len: nat, keep_alive: bool)
    requires
        forall|k: int| 0 <= k < ctype.len() ==> #[trigger] ctype[k] != '\n',
    ensures
        lines(head_text(status, ctype, len, keep_alive), 0) == seq![
            status_line(status),
            type_line(ctype),
            length_line(len),
            connection_line(keep_alive),
        ],
{
    reveal_strlit("HTTP/1.1 ");
    reveal_strlit(" ");
    reveal_strlit("OK");
    reveal_strlit("Bad Request");
    reveal_strlit("Not Found");
    reveal_strlit("Content-Type");
    reveal_strlit("Content-Length");
    reveal_strlit("Connection");
    reveal_strlit("keep-alive");
    reveal_strlit("close");
    lemma_digits_encode(status as nat);
    lemma_digits_encode(len);
    let a = status_line(status);
    let b = type_line(ctype);
    let c = length_line(len);
    let d = connection_line(keep_alive);
    assert forall|k: int| 0 <= k < digits(status as nat).len() implies #[trigger] digits(
        status as nat,
    )[k] != '\n' by {
        assert(48 <= digits(status as nat)[k] as u32);
    }
    assert forall|k: int| 0 <= k < digits(len).len() implies #[trigger] digits(len)[k] != '\n' by {
        assert(48 <= digits(len)[k] as u32);
    }
    assert(forall|k: int| 0 <= k < a.len() ==> #[trigger] a[k] != '\n');
    assert(forall|k: int| 0 <= k < b.len() ==> #[trigger] b[k] != '\n');
    assert(forall|k: int| 0 <= k < c.len() ==> #[trigger] c[k] != '\n');
    assert(forall|k: int| 0 <= k < d.len() ==> #[trigger] d[k] != '\n');
    let end = seq!['\r', '\n'];
    lemma_one_line(d);
    lemma_line_off(c, d);
    lemma_line_off(b, c + end + d);
    lemma_line_off(a, b + end + (c + end + d));
    assert(seq![a] + (seq![b] + (seq![c] + seq![d])) =~= seq![a, b, c, d]);
}

proof fn lemma_plain_key(key: Seq<char>)
    requires
        key == "Content-Type"@ || key == "Content-Length"@ || key == "Connection"@,
    ensures
        key.len() > 0,
        forall|k: int| 0 <= k < key.len() ==> #[trigger] key[k] != ':' && !is_space(key[k]),
        same_ignoring_case(key, "content-length"@) <==> key == "Content-Length"@,
        same_ignoring_case(key, "connection"@) <==> key == "Connection"@,
{
    reveal_strlit("Content-Type");
    reveal_strlit("Content-Length");
    reveal_strlit("Connection");
    reveal_strlit("content-length");
    reveal_strlit("connection");
}

proof fn lemma_headers_of_head(r: Request, ctype: Seq<char>, len: nat, keep_alive: bool)
    requires
        len <= usize::MAX,
    ensures
        with_header(r, type_line(ctype)) == r,
        with_header(r, length_line(len)) == (Request { content_length: len as usize, ..r }),
        with_header(r, connection_line(keep_alive)) == (Request {
            want_close: r.want_close || !keep_alive,
            ..r
        }),
{
    lemma_plain_key("Content-Type"@);
    lemma_plain_key("Content-Length"@);
    lemma_plain_key("Connection"@);
    reveal_strlit("Content-Type");
    reveal_strlit("Content-Length");
    reveal_strlit("Connection");
    lemma_key("Content-Type"@, seq![' '] + ctype);
    lemma_digits_encode(len);
    let d = digits(len);
    assert(48 <= d[0] as u32 <= 57);
    assert(48 <= d[d.len() - 1] as u32 <= 57);
    lemma_header_line("Content-Length"@, d);
    let conn = if keep_alive {
        "keep-alive"@
    } else {
        "close"@
    };
    reveal_strlit("keep-alive");
    reveal_strlit("close");
    lemma_header_line("Connection"@, conn);
    assert(same_ignoring_case("close"@, "close"@));
    assert(!same_ignoring_case("keep-alive"@, "close"@));
}

/// An answer can be read as requests are: its head ends with an empty line,
/// after which nothing but the body follows. Read as the head of a request, it
/// announces exactly the length of the body, and asks to close the connection
/// exactly where that is not kept. Its first line holds the status, and its
/// second the type.
pub proof fn answer_announces_its_body(
    status: u16,
    ctype: Seq<char>,
    body: Seq<u8>,
    keep_alive: bool,
) -> (head: Seq<char>)
    requires
        body.len() <= usize::MAX,
        forall|k: int| 0 <= k < ctype.len() ==> #[trigger] ctype[k] != '\n',
    ensures
        response_bytes(status, ctype, body, keep_alive) == encode_utf8(head) + seq![
            13u8,
            10u8,
            13u8,
            10u8,
        ] + body,
        head_request(head).content_length == body.len(),
        head_request(head).want_close == !keep_alive,
        lines(head, 0).len() == 4,
        exists|d: Seq<char>, why: Seq<char>|
            {
                &&& lines(head, 0)[0] == "HTTP/1.1 "@ + d + " "@ + why
                &&& #[trigger] reads_as(encode_utf8(d), status as int)
                &&& #[trigger] why.len() > 0
                &&& status == 200 ==> why == "OK"@
                &&& status == 400 ==> why == "Bad Request"@
                &&& status != 200 && status != 400 ==> why == "Not Found"@
            },
        lines(head, 0)[1] == "Content-Type: "@ + ctype,
{
    let head = head_text(status, ctype, body.len(), keep_alive);
    lemma_answer_is_head_and_body(status, ctype, body, keep_alive);
    lemma_lines_of_head(status, ctype, body.len(), keep_alive);
    let all = lines(head, 0);
    let start = Request {
        route: route_of(
            word(all[0], 0),
            word(all[0], 1),
        ),
        content_length: 0,
        want_close: false,
    };
    reveal_with_fuel(with_headers, 5);
    let r1 = with_header(start, all[1]);
    let r2 = with_header(r1, all[2]);
    let r3 = with_header(r2, all[3]);
    lemma_headers_of_head(start, ctype, body.len(), keep_alive);
    lemma_headers_of_head(r1, ctype, body.len(), keep_alive);
    lemma_headers_of_head(r2, ctype, body.len(), keep_alive);
    assert(with_headers(start, all, 4) == r3);
    lemma_digits_encode(status as nat);
    digits_read_back(status as nat);
    reveal_strlit("OK");
    reveal_strlit("Bad Request");
    reveal_strlit("Not Found");
    assert(reads_as(encode_utf8(digits(status as nat)), status as int) && reason(status).len()
        > 0);
    reveal_strlit("Content-Type");
    reveal_strlit("Content-Type: ");
    assert(type_line(ctype) =~= "Content-Type: "@ + ctype);
    head
}

/// What each request is answered: `ok` for health, 404 for what is not served,
/// 400 with the length that came for a body that is no batch, and otherwise the
/// batch is run.
pub proof fn requests_are_answered_by_route<S: Scalar>(
    request: Request,
    body: Seq<u8>,
    reply: Reply<S>,
) -> (text: Seq<u8>)
    requires
        reply_gives(request, body, reply),
    ensures
        request.route == Route::Predict && body.len() > 0 && body.len() % 3136 == 0 ==> (
        reply matches Reply::Run(t) && batch_gives(body, t@)),
        !(request.route == Route::Predict && body.len() > 0 && body.len() % 3136 == 0) ==> (
        reply matches Reply::Send(out) && out@ == response_bytes(
            match request.route {
                Route::Health => 200,
                Route::Predict => 400,
                Route::Other => 404,
            },
            "text/plain"@,
            text,
            !request.want_close,
        )),
        request.route == Route::Health ==> text == encode_utf8("ok"@),
        request.route == Route::Other ==> text == encode_utf8("not found"@),
        request.route == Route::Predict ==> exists|d: Seq<u8>|
            {
                &&& text == encode_utf8("body must be N*784*4 bytes of f32, got "@) + d
                &&& #[trigger] reads_as(d, body.len() as int)
            },
{
    digits_read_back(body.len());
    assert(reads_as(decimal(body.len()), body.len() as int));
    match request.route {
        Route::Health => encode_utf8("ok"@),
        Route::Predict => bad_body_text(body.len()),
        Route::Other => encode_utf8("not found"@),
    }
}

} // verus!
