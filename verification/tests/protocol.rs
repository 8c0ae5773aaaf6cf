use hypertorch::http::{
    closes_after, cut_frame, find_crlfcrlf, next_frame, parse_head, prediction_response,
    reply_with_predictions, response, Frame, Request, Route,
};
use hypertorch::text::{
    chars_of, find_char, first_two_words, parse_number, text_is, text_is_ignoring_case, text_lines,
    trimmed,
};

fn chars(s: &str) -> Vec<char> {
    s.chars().collect()
}

fn string(s: &[char]) -> String {
    s.iter().collect()
}

fn head(s: &str) -> Request {
    parse_head(&chars(s))
}

#[test]
fn blank_line_is_found() {
    assert_eq!(find_crlfcrlf(b"a\r\n\r\nb\r\n\r\n"), Some(1));
    assert_eq!(find_crlfcrlf(b"\r\n\r\n"), Some(0));
    assert_eq!(find_crlfcrlf(b"a\r\n\r"), None);
    assert_eq!(find_crlfcrlf(b"\r\r\n\r\n"), Some(1));
    assert_eq!(find_crlfcrlf(b""), None);
}

#[test]
fn heads_are_read() {
    let r = head("POST /predict HTTP/1.1\r\nHost: x\r\nContent-Length: 3136\r\nConnection: Close");
    assert_eq!(r, Request { route: Route::Predict, content_length: 3136, want_close: true });
    let r = head("GET /health HTTP/1.1\r\ncontent-LENGTH :  7 \r\nConnection: keep-alive");
    assert_eq!(r, Request { route: Route::Health, content_length: 7, want_close: false });
    let r = head("GET /predict HTTP/1.1");
    assert_eq!(r, Request { route: Route::Other, content_length: 0, want_close: false });
    let r = head("get /health");
    assert_eq!(r.route, Route::Other);
    let r = head("");
    assert_eq!(r, Request { route: Route::Other, content_length: 0, want_close: false });
    let r = head("  GET\t/health  ");
    assert_eq!(r.route, Route::Health);
}

#[test]
fn last_content_length_counts() {
    assert_eq!(head("GET / x\r\nContent-Length: 5\r\nContent-Length: 6").content_length, 6);
    assert_eq!(head("GET / x\r\nContent-Length: 5\r\nContent-Length: no").content_length, 0);
    assert!(head("GET / x\nConnection: close\nConnection: keep-alive").want_close);
}

#[test]
fn connection_closes_where_asked() {
    assert!(head("GET / x\r\nA: b\r\n CONNECTION\t:  Close ").want_close);
    assert!(!head("GET / x\r\nConnection: closed").want_close);
    assert!(!head("GET / x\r\nConnection close").want_close);
    assert!(!head("Connection: close\r\nHost: x").want_close);
}

#[test]
fn frames_are_cut() {
    let buf = b"POST /x HTTP/1.1\r\nContent-Length: 3\r\n\r\nabcGET";
    match next_frame(buf) {
        Frame::Whole { request, body, consumed } => {
            assert_eq!(request.content_length, 3);
            assert_eq!(body, b"abc".to_vec());
            assert_eq!(consumed, buf.len() - 3);
        }
        _ => panic!("a whole request"),
    }
    // whatever is missing of it, the request is waited for
    for k in 0..buf.len() - 3 {
        assert!(matches!(next_frame(&buf[..k]), Frame::More), "cut at {}", k);
    }
}

#[test]
fn pipelined_requests_stay_apart() {
    let one = b"GET /health HTTP/1.1\r\n\r\n";
    let mut two = one.to_vec();
    two.extend_from_slice(one);
    match next_frame(&two) {
        Frame::Whole { request, body, consumed } => {
            assert_eq!(request.route, Route::Health);
            assert!(body.is_empty());
            assert_eq!(consumed, one.len());
        }
        _ => panic!("a whole request"),
    }
}

#[test]
fn bodies_beyond_memory_are_aborted() {
    let buf = b"POST /predict HTTP/1.1\r\nContent-Length: 18446744073709551615\r\n\r\n";
    assert!(matches!(next_frame(buf), Frame::Abort));
    let request = Request { route: Route::Other, content_length: usize::MAX, want_close: false };
    assert!(matches!(cut_frame(b"\r\n\r\n", 0, request), Frame::Abort));
    let request = Request { route: Route::Other, content_length: 1, want_close: false };
    assert!(matches!(cut_frame(b"\r\n\r\n", 0, request), Frame::More));
}

#[test]
fn heads_need_not_be_utf8() {
    let buf = b"GET /health HTTP/1.1\r\nX: \xff\xfe\r\nConnection: close\r\n\r\n";
    match next_frame(buf) {
        Frame::Whole { request, .. } => {
            assert_eq!(request.route, Route::Health);
            assert!(request.want_close);
        }
        _ => panic!("a whole request"),
    }
    // the no-break space, as UTF-8, is a space between words
    let buf = "GET\u{a0}/health\r\n\r\n".as_bytes();
    match next_frame(buf) {
        Frame::Whole { request, .. } => assert_eq!(request.route, Route::Health),
        _ => panic!("a whole request"),
    }
}

#[test]
fn predictions_are_json() {
    let out = String::from_utf8(prediction_response(&[7, 10], 9, true)).unwrap();
    assert_eq!(
        out,
        "HTTP/1.1 200 OK\r\nContent-Type: application/json\r\nContent-Length: 33\r\nConnection: keep-alive\r\n\r\n{\"predictions\":[7,10],\"micros\":9}"
    );
    let out = String::from_utf8(prediction_response(&[], 120, false)).unwrap();
    assert!(out.ends_with("{\"predictions\":[],\"micros\":120}"));
    assert!(out.contains("Connection: close\r\n"));
}

#[test]
fn replies_follow_the_wish_to_close() {
    for want_close in [false, true] {
        let request = Request { route: Route::Predict, content_length: 0, want_close };
        let out = String::from_utf8(reply_with_predictions(&request, &[3], 4)).unwrap();
        assert!(out.ends_with("{\"predictions\":[3],\"micros\":4}"));
        assert_eq!(out.contains("Connection: close\r\n"), want_close);
        assert_eq!(out.contains("Connection: keep-alive\r\n"), !want_close);
        assert_eq!(closes_after(&request), want_close);
    }
}

#[test]
fn responses_carry_the_length() {
    let out = response(200, "text/plain", b"0123456789", false);
    let text = String::from_utf8(out).unwrap();
    assert!(text.starts_with("HTTP/1.1 200 OK\r\n"));
    assert!(text.contains("Content-Length: 10\r\n"));
}

#[test]
fn texts_are_split() {
    let s = chars("one\r\ntwo\n\nfour\r");
    let lines: Vec<String> = text_lines(&s).iter().map(|l| string(l)).collect();
    let expected: Vec<String> = "one\r\ntwo\n\nfour\r".lines().map(|l| l.to_string()).collect();
    assert_eq!(lines, expected);
    assert_eq!(text_lines(&chars("a\n")).len(), 1);
    let words = chars(" \ta  bc d ");
    let (a, b) = first_two_words(&words);
    assert_eq!((string(a), string(b)), ("a".to_string(), "bc".to_string()));
    let (a, b) = first_two_words(&words[..3]);
    assert_eq!((string(a), string(b)), ("a".to_string(), String::new()));
    assert_eq!(string(trimmed(&chars(" \u{3000}x y\u{2003}\n"))), "x y");
    assert_eq!(string(trimmed(&chars("  "))), "");
    assert_eq!(find_char(&chars("a:b:c"), ':', 2), 3);
    assert_eq!(find_char(&chars("abc"), ':', 0), 3);
    assert_eq!(chars_of("h\u{e9}!"), chars("h\u{e9}!"));
}

#[test]
fn spaces_are_those_of_unicode() {
    for n in 0..0x11_0000u32 {
        if let Some(c) = char::from_u32(n) {
            let text = [c];
            assert_eq!(trimmed(&text).is_empty(), c.is_whitespace(), "character {}", n);
        }
    }
}

#[test]
fn words_are_compared() {
    assert!(text_is(&chars("GET"), "GET"));
    assert!(!text_is(&chars("get"), "GET"));
    assert!(!text_is(&chars("GETS"), "GET"));
    assert!(text_is_ignoring_case(&chars("Content-LENGTH"), "content-length"));
    assert!(!text_is_ignoring_case(&chars("content_length"), "content-length"));
    assert!(!text_is_ignoring_case(&chars("\u{c9}"), "\u{e9}"));
}

#[test]
fn numbers_are_read() {
    let cases = [
        "0", "7", "+7", "0042", "18446744073709551615", "18446744073709551616", "99999999999999999999999",
        "", "+", "-1", "1 ", "1x", "++1", "\u{664}",
    ];
    for case in cases.iter() {
        assert_eq!(parse_number(&chars(case)), case.parse::<usize>().ok(), "{}", case);
    }
}
