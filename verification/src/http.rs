//! The protocol of the model server: how requests are cut from a byte stream,
//! what they ask for, and what they are answered.
//!
//! Endpoints:
//!   GET  /health   -> `ok`
//!   POST /predict  -> body: `N * IN_FEATURES` little-endian f32, answer in JSON
use vstd::prelude::*;
use vstd::slice::slice_subrange;
use vstd::utf8::{decode_utf8, encode_utf8, valid_utf8};

use crate::rtw::{bits_at, read_u32};
use crate::scalar::from_bits_gives;
use crate::scalar::Scalar;
use crate::shape::{copied, lemma_fits_2, lemma_product_2};
use crate::tensor::{Tensor, TensorView};
use crate::text::{
    chars_of, find_char, first_two_words, parse_number, text_is, text_is_ignoring_case, text_lines,
    trimmed,
};
use crate::text::{lines, number, same_ignoring_case, seek, trim, word};

verus! {

/// The number of features of one sample.
pub const IN_FEATURES: usize = 784;

/// What a request asks for.
#[derive(Debug, Clone, Copy, PartialEq, Eq, Structural)]
pub enum Route {
    Health,
    Predict,
    Other,
}

/// The head of a request.
#[derive(Debug, Clone, Copy, PartialEq, Eq, Structural)]
pub struct Request {
    pub route: Route,
    pub content_length: usize,
    pub want_close: bool,
}

/// What the bytes received so far amount to.
pub enum Frame {
    /// The request is not complete: more bytes are needed.
    More,
    /// The request announces a body that no buffer can hold.
    Abort,
    /// The first request, its body, and how many bytes the two take.
    Whole { request: Request, body: Vec<u8>, consumed: usize },
}

/// The value of a [`Frame`].
#[verifier::ext_equal]
pub enum FrameView {
    More,
    Abort,
    Whole { request: Request, body: Seq<u8>, consumed: int },
}

impl View for Frame {
    type V = FrameView;

    open spec fn view(&self) -> FrameView {
        match self {
            Frame::More => FrameView::More,
            Frame::Abort => FrameView::Abort,
            Frame::Whole { request, body, consumed } => FrameView::Whole {
                request: *request,
                body: body@,
                consumed: *consumed as int,
            },
        }
    }
}

/// What the server does about a request.
pub enum Reply<S> {
    /// Send these bytes.
    Send(Vec<u8>),
    /// Run the model on this batch.
    Run(Tensor<S>),
}

/// An empty line, as two line ends, stands at a place.
pub open spec fn blank_line_at(buf: Seq<u8>, i: int) -> bool {
    &&& 0 <= i
    &&& i + 4 <= buf.len()
    &&& buf[i] == 13
    &&& buf[i + 1] == 10
    &&& buf[i + 2] == 13
    &&& buf[i + 3] == 10
}

/// The first place from `i` on where an empty line stands.
pub open spec fn blank_line_from(buf: Seq<u8>, i: int) -> Option<int>
    decreases buf.len() - i,
{
    if i + 4 > buf.len() {
        None
    } else if blank_line_at(buf, i) {
        Some(i)
    } else {
        blank_line_from(buf, i + 1)
    }
}

/// The route of a method and a path.
pub open spec fn route_of(method: Seq<char>, path: Seq<char>) -> Route {
    if method == "GET"@ && path == "/health"@ {
        Route::Health
    } else if method == "POST"@ && path == "/predict"@ {
        Route::Predict
    } else {
        Route::Other
    }
}

/// A request after one more header line.
pub open spec fn with_header(r: Request, line: Seq<char>) -> Request {
    let colon = seek(line, ':', 0);
    if colon >= line.len() {
        r
    } else {
        let key = trim(line.subrange(0, colon));
        let value = trim(line.subrange(colon + 1, line.len() as int));
        Request {
            route: r.route,
            content_length: if same_ignoring_case(key, "content-length"@) {
                match number(value) {
                    Some(n) => n,
                    None => 0,
                }
            } else {
                r.content_length
            },
            want_close: r.want_close || (same_ignoring_case(key, "connection"@)
                && same_ignoring_case(value, "close"@)),
        }
    }
}

/// A request after the header lines before line `n`; line 0 is the request
/// line.
pub open spec fn with_headers(r: Request, all: Seq<Seq<char>>, n: nat) -> Request
    decreases n,
{
    if n <= 1 {
        r
    } else {
        with_header(with_headers(r, all, (n - 1) as nat), all[n - 1])
    }
}

/// The request that a head asks for.
pub open spec fn head_request(text: Seq<char>) -> Request {
    let all = lines(text, 0);
    let first = if all.len() > 0 {
        all[0]
    } else {
        Seq::empty()
    };
    let start = Request {
        route: route_of(word(first, 0), word(first, 1)),
        content_length: 0,
        want_close: false,
    };
    with_headers(start, all, all.len())
}

/// The text that [`String::from_utf8_lossy`] reads from bytes.
pub uninterp spec fn lossy_text(bytes: Seq<u8>) -> Seq<char>;

/// What a buffer amounts to whose first empty line stands at `head_end`, with
/// the request before it.
pub open spec fn frame_after_head(buf: Seq<u8>, head_end: int, request: Request) -> FrameView {
    let start = head_end + 4;
    let end = start + request.content_length;
    if end > usize::MAX {
        FrameView::Abort
    } else if end > buf.len() {
        FrameView::More
    } else {
        FrameView::Whole { request, body: buf.subrange(start, end), consumed: end }
    }
}

/// What a buffer amounts to.
pub open spec fn frame_of(buf: Seq<u8>) -> FrameView {
    match blank_line_from(buf, 0) {
        None => FrameView::More,
        Some(p) => frame_after_head(buf, p, head_request(lossy_text(buf.take(p)))),
    }
}

/// The decimal digits of a number.
pub open spec fn decimal(n: nat) -> Seq<u8>
    decreases n,
{
    if n < 10 {
        seq![(48 + n) as u8]
    } else {
        decimal(n / 10).push((48 + n % 10) as u8)
    }
}

/// The reason phrase of a status.
pub open spec fn reason(status: u16) -> Seq<char> {
    if status == 200 {
        "OK"@
    } else if status == 400 {
        "Bad Request"@
    } else {
        "Not Found"@
    }
}

/// The bytes of a response.
pub open spec fn response_bytes(
    status: u16,
    ctype: Seq<char>,
    body: Seq<u8>,
    keep_alive: bool,
) -> Seq<u8> {
    let conn = if keep_alive {
        "keep-alive"@
    } else {
        "close"@
    };
    encode_utf8("HTTP/1.1 "@) + decimal(status as nat) + encode_utf8(" "@) + encode_utf8(
        reason(status),
    ) + encode_utf8("\r\nContent-Type: "@) + encode_utf8(ctype) + encode_utf8(
        "\r\nContent-Length: "@,
    ) + decimal(body.len()) + encode_utf8("\r\nConnection: "@) + encode_utf8(conn) + encode_utf8(
        "\r\n\r\n"@,
    ) + body
}

/// A body that holds one or more samples, and nothing else.
pub open spec fn is_batch(len: nat) -> bool {
    len > 0 && len % (IN_FEATURES as nat * 4) == 0
}

/// `t` is the batch that a body holds: one row of features for each sample.
pub open spec fn batch_gives<S: Scalar>(body: Seq<u8>, t: TensorView<S>) -> bool {
    let n = body.len() / (IN_FEATURES as nat * 4);
    let bits = bits_at(body, 0, n * IN_FEATURES as nat);
    &&& t.wf()
    &&& t.shape.len() == 2
    &&& t.shape[0] == n
    &&& t.shape[1] == IN_FEATURES
    &&& t.data.len() == bits.len()
    &&& forall|i: int| 0 <= i < t.data.len() ==> from_bits_gives(bits[i], #[trigger] t.data[i])
}

/// What a client is told about a body that is no batch.
pub open spec fn bad_body_text(len: nat) -> Seq<u8> {
    encode_utf8("body must be N*784*4 bytes of f32, got "@) + decimal(len)
}

/// The first `n` numbers, with commas between them.
pub open spec fn joined(nums: Seq<usize>, n: nat) -> Seq<u8>
    decreases n,
{
    if n == 0 {
        Seq::empty()
    } else if n == 1 {
        decimal(nums[0] as nat)
    } else {
        joined(nums, (n - 1) as nat) + encode_utf8(","@) + decimal(nums[n - 1] as nat)
    }
}

/// Predictions and the time they took, as JSON.
pub open spec fn predictions_json(preds: Seq<usize>, micros: nat) -> Seq<u8> {
    encode_utf8("{\"predictions\":["@) + joined(preds, preds.len()) + encode_utf8(
        "],\"micros\":"@,
    ) + decimal(micros) + encode_utf8("}"@)
}

/// What a request is answered.
pub open spec fn reply_gives<S: Scalar>(request: Request, body: Seq<u8>, reply: Reply<S>) -> bool {
    let keep = !request.want_close;
    match request.route {
        Route::Health => reply matches Reply::Send(out) && out@ == response_bytes(
            200,
            "text/plain"@,
            encode_utf8("ok"@),
            keep,
        ),
        Route::Predict => if is_batch(body.len()) {
            reply matches Reply::Run(t) && batch_gives(body, t@)
        } else {
            reply matches Reply::Send(out) && out@ == response_bytes(
                400,
                "text/plain"@,
                bad_body_text(body.len()),
                keep,
            )
        },
        Route::Other => reply matches Reply::Send(out) && out@ == response_bytes(
            404,
            "text/plain"@,
            encode_utf8("not found"@),
            keep,
        ),
    }
}

/// [`String::from_utf8_lossy`]: the text of the bytes, with a replacement
/// character for what is not UTF-8; bytes that are UTF-8 read as they are.
#[verifier::external_body]
fn read_lossy(bytes: &[u8]) -> (text: String)
    ensures
        text@ == lossy_text(bytes@),
        valid_utf8(bytes@) ==> text@ == decode_utf8(bytes@),
{
    String::from_utf8_lossy(bytes).into_owned()
}

/// The place of the first empty line.
pub fn find_crlfcrlf(buf: &[u8]) -> (at: Option<usize>)
    ensures
        match at {
            Some(p) => blank_line_from(buf@, 0) == Some(p as int) && p + 4 <= buf@.len(),
            None => blank_line_from(buf@, 0) is None,
        },
{
    let mut i: usize = 0;
    while i < buf.len() && buf.len() - i >= 4
        invariant
            i <= buf@.len(),
            blank_line_from(buf@, i as int) == blank_line_from(buf@, 0),
        decreases buf@.len() - i,
    {
        if buf[i] == 13 && buf[i + 1] == 10 && buf[i + 2] == 13 && buf[i + 3] == 10 {
            return Some(i);
        }
        i = i + 1;
    }
    None
}

fn read_header(r: Request, line: &[char]) -> (next: Request)
    ensures
        next == with_header(r, line@),
{
    let colon: usize = find_char(line, ':', 0);
    if colon >= line.len() {
        return r;
    }
    let key: &[char] = trimmed(slice_subrange(line, 0, colon));
    let value: &[char] = trimmed(slice_subrange(line, colon + 1, line.len()));
    let mut next: Request = r;
    if text_is_ignoring_case(key, "content-length") {
        next.content_length = match parse_number(value) {
            Some(n) => n,
            None => 0,
        };
    }
    if text_is_ignoring_case(key, "connection") && text_is_ignoring_case(value, "close") {
        next.want_close = true;
    }
    next
}

/// The request that a head asks for.
pub fn parse_head(text: &[char]) -> (request: Request)
    ensures
        request == head_request(text@),
{
    let all: Vec<&[char]> = text_lines(text);
    let empty: &[char] = slice_subrange(text, 0, 0);
    let first: &[char] = if all.len() > 0 {
        all[0]
    } else {
        empty
    };
    assert(empty@ =~= Seq::<char>::empty());
    let (method, path) = first_two_words(first);
    let route: Route = if text_is(method, "GET") && text_is(path, "/health") {
        Route::Health
    } else if text_is(method, "POST") && text_is(path, "/predict") {
        Route::Predict
    } else {
        Route::Other
    };
    let start = Request { route, content_length: 0, want_close: false };
    let ghost ls = lines(text@, 0);
    let mut request: Request = start;
    let mut i: usize = 1;
    while i < all.len()
        invariant
            1 <= i,
            i <= all@.len() || i == 1,
            all@.len() == ls.len(),
            forall|k: int| 0 <= k < all@.len() ==> (#[trigger] all@[k])@ == ls[k],
            request == with_headers(start, ls, i as nat),
        decreases all@.len() - i,
    {
        assert(all@[i as int]@ == ls[i as int]);
        request = read_header(request, all[i]);
        proof {
            let n = (i + 1) as nat;
            assert((n - 1) as nat == i as nat);
            assert(ls[n - 1] == ls[i as int]);
        }
        i = i + 1;
    }
    request
}

/// What a buffer amounts to, given the end and the request of its head.
pub fn cut_frame(buf: &[u8], head_end: usize, request: Request) -> (frame: Frame)
    requires
        head_end + 4 <= buf@.len(),
    ensures
        frame@ == frame_after_head(buf@, head_end as int, request),
{
    assert(buf@.len() == buf.len());
    let start: usize = head_end + 4;
    match start.checked_add(request.content_length) {
        None => Frame::Abort,
        Some(end) => if end > buf.len() {
            Frame::More
        } else {
            let body: Vec<u8> = copied(slice_subrange(buf, start, end));
            Frame::Whole { request, body, consumed: end }
        },
    }
}

/// What the bytes received so far amount to.
pub fn next_frame(buf: &[u8]) -> (frame: Frame)
    ensures
        frame@ == frame_of(buf@),
        blank_line_from(buf@, 0) matches Some(p) ==> valid_utf8(buf@.take(p)) ==> frame@
            == frame_after_head(buf@, p, head_request(decode_utf8(buf@.take(p)))),
{
    match find_crlfcrlf(buf) {
        None => Frame::More,
        Some(p) => {
            let head: &[u8] = slice_subrange(buf, 0, p);
            assert(head@ =~= buf@.take(p as int));
            let text: String = read_lossy(head);
            let letters: Vec<char> = chars_of(text.as_str());
            let request: Request = parse_head(letters.as_slice());
            cut_frame(buf, p, request)
        },
    }
}

fn push_bytes(out: &mut Vec<u8>, bytes: &[u8])
    ensures
        final(out)@ == old(out)@ + bytes@,
{
    let ghost before = out@;
    let mut i: usize = 0;
    assert(before + bytes@.take(0) =~= before);
    while i < bytes.len()
        invariant
            i <= bytes@.len(),
            out@ == before + bytes@.take(i as int),
        decreases bytes@.len() - i,
    {
        out.push(bytes[i]);
        i = i + 1;
        assert(out@ =~= before + bytes@.take(i as int));
    }
    assert(bytes@.take(i as int) =~= bytes@);
}

fn push_text(out: &mut Vec<u8>, text: &str)
    ensures
        final(out)@ == old(out)@ + encode_utf8(text@),
{
    push_bytes(out, text.as_bytes());
}

fn push_decimal(out: &mut Vec<u8>, n: u128)
    ensures
        final(out)@ == old(out)@ + decimal(n as nat),
    decreases n,
{
    let ghost before = out@;
    if n >= 10 {
        push_decimal(out, n / 10);
    }
    out.push(48 + (n % 10) as u8);
    assert(out@ =~= before + decimal(n as nat));
}

/// The bytes of a response, head and body in one buffer.
pub fn response(status: u16, ctype: &str, body: &[u8], keep_alive: bool) -> (out: Vec<u8>)
    ensures
        out@ == response_bytes(status, ctype@, body@, keep_alive),
{
    let mut out: Vec<u8> = Vec::new();
    push_text(&mut out, "HTTP/1.1 ");
    push_decimal(&mut out, status as u128);
    push_text(&mut out, " ");
    let why: &str = match status {
        200 => "OK",
        400 => "Bad Request",
        _ => "Not Found",
    };
    push_text(&mut out, why);
    push_text(&mut out, "\r\nContent-Type: ");
    push_text(&mut out, ctype);
    push_text(&mut out, "\r\nContent-Length: ");
    push_decimal(&mut out, body.len() as u128);
    push_text(&mut out, "\r\nConnection: ");
    let conn: &str = if keep_alive {
        "keep-alive"
    } else {
        "close"
    };
    push_text(&mut out, conn);
    push_text(&mut out, "\r\n\r\n");
    push_bytes(&mut out, body);
    assert(out@ =~= response_bytes(status, ctype@, body@, keep_alive));
    out
}

/// The batch that a body holds, or `None` where it is no batch.
pub fn decode_batch<S: Scalar>(body: &[u8]) -> (batch: Option<Tensor<S>>)
    ensures
        match batch {
            Some(t) => is_batch(body@.len()) && batch_gives(body@, t@),
            None => !is_batch(body@.len()),
        },
{
    let len: usize = body.len();
    if len == 0 || len % (IN_FEATURES * 4) != 0 {
        return None;
    }
    let n: usize = len / (IN_FEATURES * 4);
    let count: usize = n * IN_FEATURES;
    let ghost bits = bits_at(body@, 0, count as nat);
    let mut data: Vec<S> = Vec::with_capacity(count);
    let mut i: usize = 0;
    while i < count
        invariant
            i <= count,
            4 * count == len,
            len == body@.len(),
            bits == bits_at(body@, 0, count as nat),
            data@.len() == i,
            forall|j: int| 0 <= j < i ==> from_bits_gives(bits[j], #[trigger] data@[j]),
        decreases count - i,
    {
        let b: u32 = read_u32(body, 4 * i);
        assert(b == bits[i as int]);
        data.push(S::from_bits(b));
        i = i + 1;
    }
    let dims: [usize; 2] = [n, IN_FEATURES];
    proof {
        assert(dims@ =~= seq![n, IN_FEATURES]);
        lemma_fits_2(dims@);
        lemma_product_2(dims@);
    }
    Some(Tensor::from_vec(data, dims.as_slice()))
}

/// What a request is answered, or the batch that the model is to run on.
pub fn reply_to<S: Scalar>(request: &Request, body: &[u8]) -> (reply: Reply<S>)
    ensures
        reply_gives(*request, body@, reply),
{
    let keep: bool = !request.want_close;
    match request.route {
        Route::Health => Reply::Send(response(200, "text/plain", "ok".as_bytes(), keep)),
        Route::Predict => match decode_batch(body) {
            Some(t) => Reply::Run(t),
            None => {
                let mut text: Vec<u8> = Vec::new();
                push_text(&mut text, "body must be N*784*4 bytes of f32, got ");
                push_decimal(&mut text, body.len() as u128);
                assert(text@ =~= bad_body_text(body@.len()));
                Reply::Send(response(400, "text/plain", text.as_slice(), keep))
            },
        },
        Route::Other => Reply::Send(response(404, "text/plain", "not found".as_bytes(), keep)),
    }
}

/// The response that carries predictions and the time they took.
pub fn prediction_response(preds: &[usize], micros: u128, keep_alive: bool) -> (out: Vec<u8>)
    ensures
        out@ == response_bytes(
            200,
            "application/json"@,
            predictions_json(preds@, micros as nat),
            keep_alive,
        ),
{
    let mut json: Vec<u8> = Vec::new();
    push_text(&mut json, "{\"predictions\":[");
    let ghost front = json@;
    let mut i: usize = 0;
    assert(front + joined(preds@, 0) =~= front);
    while i < preds.len()
        invariant
            i <= preds@.len(),
            json@ == front + joined(preds@, i as nat),
        decreases preds@.len() - i,
    {
        if i > 0 {
            push_text(&mut json, ",");
        }
        push_decimal(&mut json, preds[i] as u128);
        proof {
            let n = (i + 1) as nat;
            assert((n - 1) as nat == i as nat);
            assert(preds@[n - 1] == preds@[i as int]);
            assert(json@ =~= front + joined(preds@, n));
        }
        i = i + 1;
    }
    push_text(&mut json, "],\"micros\":");
    push_decimal(&mut json, micros);
    push_text(&mut json, "}");
    assert(json@ =~= predictions_json(preds@, micros as nat));
    response(200, "application/json", json.as_slice(), keep_alive)
}

/// What a request for predictions is answered: the predictions and the time
/// they took, with the wish of the client about the connection.
pub fn reply_with_predictions(request: &Request, preds: &[usize], micros: u128) -> (out: Vec<u8>)
    ensures
        out@ == response_bytes(
            200,
            "application/json"@,
            predictions_json(preds@, micros as nat),
            !request.want_close,
        ),
{
    prediction_response(preds, micros, !request.want_close)
}

/// Whether the connection is closed after a request is answered, whatever the
/// answer is.
pub fn closes_after(request: &Request) -> (b: bool)
    ensures
        b == request.want_close,
{
    request.want_close
}

proof fn lemma_blank_line_local(buf: Seq<u8>, other: Seq<u8>, i: int, p: int)
    requires
        0 <= i,
        blank_line_from(buf, i) == Some(p),
        p + 4 <= other.len(),
        forall|k: int| 0 <= k < p + 4 ==> buf[k] == other[k],
    ensures
        blank_line_from(other, i) == Some(p),
        i <= p,
        p + 4 <= buf.len(),
    decreases buf.len() - i,
{
    lemma_blank_line_range(buf, i);
    if !blank_line_at(buf, i) {
        lemma_blank_line_range(buf, i + 1);
        lemma_blank_line_local(buf, other, i + 1, p);
    }
}

proof fn lemma_blank_line_range(buf: Seq<u8>, i: int)
    requires
        0 <= i,
    ensures
        blank_line_from(buf, i) matches Some(p) ==> i <= p && p + 4 <= buf.len(),
    decreases buf.len() - i,
{
    if i + 4 <= buf.len() && !blank_line_at(buf, i) {
        lemma_blank_line_range(buf, i + 1);
    }
}

proof fn lemma_no_blank_line_before(buf: Seq<u8>, i: int, p: int, k: int)
    requires
        0 <= i,
        blank_line_from(buf, i) == Some(p),
        0 <= k < p + 4,
        k <= buf.len(),
    ensures
        blank_line_from(buf.take(k), i) is None,
    decreases buf.len() - i,
{
    if i + 4 <= k && !blank_line_at(buf, i) {
        lemma_no_blank_line_before(buf, i + 1, p, k);
    }
}

/// A header line asks for the connection to be closed.
pub open spec fn asks_to_close(line: Seq<char>) -> bool {
    let colon = seek(line, ':', 0);
    &&& colon < line.len()
    &&& same_ignoring_case(trim(line.subrange(0, colon)), "connection"@)
    &&& same_ignoring_case(trim(line.subrange(colon + 1, line.len() as int)), "close"@)
}

proof fn lemma_headers_close(r: Request, all: Seq<Seq<char>>, n: nat)
    requires
        !r.want_close,
        n <= all.len(),
    ensures
        with_headers(r, all, n).want_close <==> exists|i: int|
            1 <= i < n && asks_to_close(#[trigger] all[i]),
        with_headers(r, all, n).route == r.route,
    decreases n,
{
    if n > 1 {
        let m = (n - 1) as nat;
        lemma_headers_close(r, all, m);
        if with_headers(r, all, n).want_close && !with_headers(r, all, m).want_close {
            assert(asks_to_close(all[n - 1]));
        }
    }
}

/// The connection is to be closed exactly where some header line asks for it,
/// whatever the other lines say.
pub proof fn closes_where_asked(text: Seq<char>)
    ensures
        head_request(text).want_close <==> exists|i: int|
            1 <= i < lines(text, 0).len() && asks_to_close(#[trigger] lines(text, 0)[i]),
{
    let all = lines(text, 0);
    let first = if all.len() > 0 {
        all[0]
    } else {
        Seq::empty()
    };
    let start = Request {
        route: route_of(word(first, 0), word(first, 1)),
        content_length: 0,
        want_close: false,
    };
    lemma_headers_close(start, all, all.len());
}

/// Bytes that follow a whole request do not change it: pipelined requests
/// stay apart.
pub proof fn whole_frame_ignores_later_bytes(buf: Seq<u8>, later: Seq<u8>)
    requires
        frame_of(buf) is Whole,
    ensures
        frame_of(buf + later) == frame_of(buf),
{
    let p = blank_line_from(buf, 0)->0;
    lemma_blank_line_range(buf, 0);
    lemma_blank_line_local(buf, buf + later, 0, p);
    assert((buf + later).take(p) =~= buf.take(p));
    let request = head_request(lossy_text(buf.take(p)));
    let end = p + 4 + request.content_length;
    assert((buf + later).subrange(p + 4, end) =~= buf.subrange(p + 4, end));
}

/// A request that has not arrived whole is waited for, wherever it was cut.
pub proof fn partial_frame_is_waited_for(buf: Seq<u8>, k: int)
    requires
        frame_of(buf) is Whole,
        0 <= k < frame_of(buf)->consumed,
    ensures
        frame_of(buf.take(k)) == FrameView::More,
{
    let p = blank_line_from(buf, 0)->0;
    lemma_blank_line_range(buf, 0);
    if k < p + 4 {
        lemma_no_blank_line_before(buf, 0, p, k);
    } else {
        lemma_blank_line_local(buf, buf.take(k), 0, p);
        assert(buf.take(k).take(p) =~= buf.take(p));
    }
}

/// A whole request takes at least its empty line, and its body is what its
/// head announces.
pub proof fn whole_frame_has_announced_body(buf: Seq<u8>)
    requires
        frame_of(buf) is Whole,
    ensures
        4 <= frame_of(buf)->consumed <= buf.len(),
        frame_of(buf)->body.len() == frame_of(buf)->request.content_length,
{
    lemma_blank_line_range(buf, 0);
}

} // verus!
