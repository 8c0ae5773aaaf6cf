//! What goes over the wire, read back: lines, words and numbers of a head,
//! where a request ends, the elements of a batch, and the list of predictions.
use vstd::prelude::*;
use vstd::utf8::{encode_utf8, is_ascii_chars, is_ascii_chars_encode_utf8};

use crate::http::{
    asks_to_close, batch_gives, blank_line_at, blank_line_from, closes_where_asked, decimal,
    frame_of, head_request, is_batch, joined, lossy_text, predictions_json, route_of, with_headers,
};
use crate::http::{FrameView, Request, Route, IN_FEATURES};
use crate::rtw::{bits_at, u32_at};
use crate::scalar::{from_bits_gives, Scalar};
use crate::shape::{lemma_product_2, row_major};
use crate::tensor::TensorView;
use crate::text::{
    all_digits, digits_value, folded, is_digit, is_space, lines, number, same_ignoring_case, seek,
    skip_spaces, skip_word, trim, unsigned_digits, without_cr, without_last_spaces, word, words,
};

verus! {

// ---------- text ----------

/// A search stops at the first place that holds the character, and at the end
/// where none does.
pub proof fn search_finds_the_first(s: Seq<char>, c: char, i: int)
    requires
        0 <= i <= s.len(),
    ensures
        i <= seek(s, c, i) <= s.len(),
        forall|k: int| i <= k < seek(s, c, i) ==> #[trigger] s[k] != c,
        seek(s, c, i) < s.len() ==> s[seek(s, c, i)] == c,
    decreases s.len() - i,
{
    if i < s.len() && s[i] != c {
        search_finds_the_first(s, c, i + 1);
    }
}

proof fn lemma_spaces(s: Seq<char>, i: int)
    requires
        0 <= i <= s.len(),
    ensures
        i <= skip_spaces(s, i) <= s.len(),
        forall|k: int| i <= k < skip_spaces(s, i) ==> is_space(#[trigger] s[k]),
        skip_spaces(s, i) < s.len() ==> !is_space(s[skip_spaces(s, i)]),
    decreases s.len() - i,
{
    if i < s.len() && is_space(s[i]) {
        lemma_spaces(s, i + 1);
    }
}

proof fn lemma_word(s: Seq<char>, i: int)
    requires
        0 <= i <= s.len(),
    ensures
        i <= skip_word(s, i) <= s.len(),
        forall|k: int| i <= k < skip_word(s, i) ==> !is_space(#[trigger] s[k]),
        skip_word(s, i) < s.len() ==> is_space(s[skip_word(s, i)]),
    decreases s.len() - i,
{
    if i < s.len() && !is_space(s[i]) {
        lemma_word(s, i + 1);
    }
}

proof fn lemma_last_spaces(s: Seq<char>, n: nat)
    requires
        n <= s.len(),
    ensures
        without_last_spaces(s, n) <= n,
        forall|k: int| without_last_spaces(s, n) <= k < n ==> is_space(#[trigger] s[k]),
        without_last_spaces(s, n) > 0 ==> !is_space(s[without_last_spaces(s, n) - 1]),
    decreases n,
{
    if n > 0 && is_space(s[n - 1]) {
        lemma_last_spaces(s, (n - 1) as nat);
    }
}

/// Trimming cuts spaces off the two ends, all of them, and nothing else.
pub proof fn trimming_cuts_spaces_only(s: Seq<char>) -> (cut: (int, int))
    ensures
        0 <= cut.0 <= cut.1 <= s.len(),
        trim(s) == s.subrange(cut.0, cut.1),
        forall|k: int| 0 <= k < cut.0 || cut.1 <= k < s.len() ==> is_space(#[trigger] s[k]),
        cut.0 < cut.1 ==> !is_space(s[cut.0]) && !is_space(s[cut.1 - 1]),
{
    let from = skip_spaces(s, 0);
    let to = without_last_spaces(s, s.len()) as int;
    lemma_spaces(s, 0);
    lemma_last_spaces(s, s.len());
    if from < to {
        (from, to)
    } else {
        assert(s.subrange(from, from) =~= Seq::<char>::empty());
        if from < s.len() {
            assert(is_space(s[from]));
        }
        (from, from)
    }
}

/// The words of a text: where all is space there are none; otherwise the first
/// runs from the first character that is no space to the next space, and the
/// others are those of what follows.
pub proof fn words_lie_between_spaces(s: Seq<char>, i: int) -> (cut: (int, int))
    requires
        0 <= i <= s.len(),
    ensures
        i <= cut.0 <= cut.1 <= s.len(),
        forall|k: int| i <= k < cut.0 ==> is_space(#[trigger] s[k]),
        forall|k: int| cut.0 <= k < cut.1 ==> !is_space(#[trigger] s[k]),
        cut.1 < s.len() ==> is_space(s[cut.1]),
        cut.0 == cut.1 ==> cut.0 == s.len(),
        words(s, i) == if cut.0 < cut.1 {
            seq![s.subrange(cut.0, cut.1)] + words(s, cut.1)
        } else {
            Seq::empty()
        },
{
    let from = skip_spaces(s, i);
    lemma_spaces(s, i);
    lemma_word(s, from);
    (from, skip_word(s, from))
}

/// Word `n` is the word at place `n`, or nothing where there are fewer.
pub proof fn missing_words_are_empty(s: Seq<char>, n: int)
    requires
        0 <= n,
    ensures
        word(s, n) == if n < words(s, 0).len() {
            words(s, 0)[n]
        } else {
            Seq::empty()
        },
{
}

/// The lines of a text: the first runs to the first newline, without the one
/// carriage return that may stand before it, and the others are those of what
/// follows; a text without a newline is one line, and an empty one none.
pub proof fn lines_end_with_newlines(s: Seq<char>, i: int) -> (at: int)
    requires
        0 <= i <= s.len(),
    ensures
        i <= at <= s.len(),
        forall|k: int| i <= k < at ==> #[trigger] s[k] != '\n',
        at < s.len() ==> s[at] == '\n',
        i == s.len() ==> lines(s, i).len() == 0,
        i < s.len() && at == s.len() ==> lines(s, i) == seq![s.subrange(i, at)],
        at < s.len() ==> lines(s, i) == seq![
            if i < at && s[at - 1] == '\r' {
                s.subrange(i, at - 1)
            } else {
                s.subrange(i, at)
            },
        ] + lines(s, at + 1),
{
    search_finds_the_first(s, '\n', i);
    let at = seek(s, '\n', i);
    if at < s.len() {
        let line = s.subrange(i, at);
        if i < at && s[at - 1] == '\r' {
            assert(line.last() == '\r');
            assert(without_cr(line) =~= s.subrange(i, at - 1));
        } else {
            assert(without_cr(line) =~= s.subrange(i, at));
        }
    }
    at
}

/// Two texts are the same but for case where at every place the characters are
/// the same or one ASCII letter in its two cases.
pub proof fn case_is_that_of_ascii_letters(a: Seq<char>, b: Seq<char>)
    ensures
        same_ignoring_case(a, b) <==> a.len() == b.len() && forall|i: int|
            #![trigger a[i]]
            0 <= i < a.len() ==> {
                let x = a[i] as u32;
                let y = b[i] as u32;
                x == y || (65 <= x <= 90 && y == x + 32) || (65 <= y <= 90 && x == y + 32)
            },
{
    assert forall|i: int| #![trigger a[i]] true implies (folded(a[i]) == folded(b[i]) <==> {
        let x = a[i] as u32;
        let y = b[i] as u32;
        x == y || (65 <= x <= 90 && y == x + 32) || (65 <= y <= 90 && x == y + 32)
    }) by {}
}

proof fn lemma_digits(s: Seq<char>)
    requires
        all_digits(s),
    ensures
        digits_value(s) == s.fold_left(0int, |v: int, c: char| v * 10 + (c as u32 - 48)),
    decreases s.len(),
{
    if s.len() > 0 {
        let rest = s.drop_last();
        assert forall|i: int| 0 <= i < rest.len() implies is_digit(#[trigger] rest[i]) by {
            assert(is_digit(s[i]));
        }
        assert(is_digit(s[s.len() - 1]));
        lemma_digits(rest);
    }
}

/// A text writes a number where it is decimal digits `d`, after a plus sign or
/// without, and the number fits: each digit counts ten times the next.
pub proof fn numbers_are_decimal(s: Seq<char>, d: Seq<char>)
    requires
        d == if s.len() > 0 && s[0] == '+' {
            s.skip(1)
        } else {
            s
        },
    ensures
        number(s) is Some <==> {
            &&& d.len() > 0
            &&& forall|i: int| 0 <= i < d.len() ==> 48 <= (#[trigger] d[i]) as u32 <= 57
            &&& d.fold_left(0int, |v: int, c: char| v * 10 + (c as u32 - 48)) <= usize::MAX
        },
        number(s) matches Some(n) ==> n == d.fold_left(
            0int,
            |v: int, c: char| v * 10 + (c as u32 - 48),
        ),
{
    assert(d == unsigned_digits(s));
    if all_digits(d) {
        lemma_digits(d);
        assert forall|i: int| 0 <= i < d.len() implies 48 <= (#[trigger] d[i]) as u32 <= 57 by {
            assert(is_digit(d[i]));
        }
    } else {
        let i = choose|i: int| 0 <= i < d.len() && !is_digit(#[trigger] d[i]);
        assert(!(48 <= d[i] as u32 <= 57));
    }
}

// ---------- numbers and lists in answers ----------

/// The digits of a number read back as the number: each counts ten times the
/// next, and the first is no zero unless it is the only one.
pub proof fn digits_read_back(n: nat)
    ensures
        decimal(n).len() > 0,
        forall|i: int| 0 <= i < decimal(n).len() ==> 48 <= #[trigger] decimal(n)[i] <= 57,
        decimal(n).fold_left(0int, |v: int, b: u8| v * 10 + (b - 48)) == n,
        decimal(n).len() > 1 ==> decimal(n)[0] != 48,
    decreases n,
{
    let d = decimal(n);
    if n < 10 {
        assert(d.drop_last() =~= Seq::<u8>::empty());
        assert(d.drop_last().fold_left(0int, |v: int, b: u8| v * 10 + (b - 48)) == 0);
    } else {
        let front = decimal(n / 10);
        digits_read_back(n / 10);
        assert(d.drop_last() =~= front);
        assert(d.last() == 48 + n % 10);
        assert forall|i: int| 0 <= i < d.len() implies 48 <= #[trigger] d[i] <= 57 by {
            if i < front.len() {
                assert(d[i] == front[i]);
            }
        }
        assert(d[0] == front[0]);
        if front.len() == 1 {
            assert(front.drop_last() =~= Seq::<u8>::empty());
            assert(front.drop_last().fold_left(0int, |v: int, b: u8| v * 10 + (b - 48)) == 0);
            assert(front.last() == front[0]);
        }
    }
}

proof fn lemma_comma()
    ensures
        encode_utf8(","@) == seq![44u8],
{
    reveal_strlit(",");
    assert(is_ascii_chars(","@));
    is_ascii_chars_encode_utf8(","@);
    assert(","@[0] as u8 == encode_utf8(","@)[0]);
    assert(encode_utf8(","@) =~= seq![44u8]);
}

/// Bytes are the digits of a number, without a needless zero before them.
pub open spec fn reads_as(part: Seq<u8>, n: int) -> bool {
    &&& part.len() > 0
    &&& part.len() > 1 ==> part[0] != 48
    &&& forall|k: int| 0 <= k < part.len() ==> 48 <= #[trigger] part[k] <= 57
    &&& part.fold_left(0int, |v: int, b: u8| v * 10 + (b - 48)) == n
}

/// Between cut `i` and the next a text reads as number `i`; the cut is before
/// the text or at a comma in it.
pub open spec fn part_reads(text: Seq<u8>, cuts: Seq<int>, nums: Seq<usize>, i: int) -> bool {
    &&& if i == 0 {
        cuts[i] == -1
    } else {
        0 <= cuts[i] < text.len() && text[cuts[i]] == 44
    }
    &&& cuts[i] < cuts[i + 1] <= text.len()
    &&& reads_as(text.subrange(cuts[i] + 1, cuts[i + 1]), nums[i] as int)
}

/// A list of numbers can be read back: cut at its commas, and nowhere else, it
/// has one part for each number, and part `i` is the digits of number `i`.
pub proof fn list_reads_back(nums: Seq<usize>, n: nat) -> (cuts: Seq<int>)
    requires
        n <= nums.len(),
    ensures
        n == 0 ==> joined(nums, n).len() == 0,
        n > 0 ==> cuts.len() == n + 1 && cuts[n as int] == joined(nums, n).len(),
        forall|i: int| 0 <= i < n ==> #[trigger] part_reads(joined(nums, n), cuts, nums, i),
    decreases n,
{
    let text = joined(nums, n);
    if n == 0 {
        Seq::empty()
    } else if n == 1 {
        digits_read_back(nums[0] as nat);
        let cuts = seq![-1, text.len() as int];
        assert(text.subrange(0, text.len() as int) =~= decimal(nums[0] as nat));
        assert(part_reads(text, cuts, nums, 0));
        cuts
    } else {
        let m = (n - 1) as nat;
        let before = list_reads_back(nums, m);
        let front = joined(nums, m);
        let digits = decimal(nums[n - 1] as nat);
        lemma_comma();
        digits_read_back(nums[n - 1] as nat);
        let cuts = before.push(text.len() as int);
        assert(text =~= front + seq![44u8] + digits);
        assert forall|i: int| 0 <= i < n implies #[trigger] part_reads(text, cuts, nums, i) by {
            let part = text.subrange(cuts[i] + 1, cuts[i + 1]);
            if i < m {
                assert(part_reads(front, before, nums, i));
                assert(part =~= front.subrange(before[i] + 1, before[i + 1]));
            } else {
                assert(part_reads(front, before, nums, m - 1));
                assert(part =~= digits);
            }
        }
        cuts
    }
}

/// A text has one reading: lists of numbers with the same text are the same.
pub proof fn different_lists_read_differently(a: Seq<usize>, b: Seq<usize>)
    requires
        joined(a, a.len()) == joined(b, b.len()),
    ensures
        a == b,
{
    let text = joined(a, a.len());
    let cuts = list_reads_back(a, a.len());
    let cuts2 = list_reads_back(b, b.len());
    if a.len() > 0 {
        assert(part_reads(text, cuts, a, 0));
    }
    if b.len() > 0 {
        assert(part_reads(text, cuts2, b, 0));
    }
    if a.len() > 0 && b.len() > 0 {
        lemma_one_reading(text, a, cuts, b, cuts2, 0);
    }
    assert(a =~= b);
}

proof fn lemma_one_reading(
    text: Seq<u8>,
    a: Seq<usize>,
    cuts: Seq<int>,
    b: Seq<usize>,
    cuts2: Seq<int>,
    i: int,
)
    requires
        cuts.len() == a.len() + 1,
        cuts2.len() == b.len() + 1,
        cuts[a.len() as int] == text.len(),
        cuts2[b.len() as int] == text.len(),
        forall|k: int| 0 <= k < a.len() ==> #[trigger] part_reads(text, cuts, a, k),
        forall|k: int| 0 <= k < b.len() ==> #[trigger] part_reads(text, cuts2, b, k),
        0 <= i <= a.len(),
        i <= b.len(),
        cuts[i] == cuts2[i],
    ensures
        a.len() == b.len(),
        forall|k: int| i <= k < a.len() ==> a[k] == b[k],
    decreases a.len() - i,
{
    if i < a.len() {
        assert(part_reads(text, cuts, a, i));
    }
    if i < b.len() {
        assert(part_reads(text, cuts2, b, i));
    }
    if i < a.len() && i < b.len() {
        let p = text.subrange(cuts[i] + 1, cuts[i + 1]);
        let q = text.subrange(cuts2[i] + 1, cuts2[i + 1]);
        if cuts[i + 1] < cuts2[i + 1] {
            assert(part_reads(text, cuts, a, i + 1));
            assert(q[cuts[i + 1] - cuts[i] - 1] == text[cuts[i + 1]]);
        } else if cuts2[i + 1] < cuts[i + 1] {
            assert(part_reads(text, cuts2, b, i + 1));
            assert(p[cuts2[i + 1] - cuts[i] - 1] == text[cuts2[i + 1]]);
        }
        lemma_one_reading(text, a, cuts, b, cuts2, i + 1);
    }
}

/// The answer to a request for predictions holds the list of predictions
/// between its brackets and the time after its last colon.
pub proof fn answer_holds_list_and_time(preds: Seq<usize>, micros: nat) -> (parts: (
    Seq<u8>,
    Seq<u8>,
))
    ensures
        predictions_json(preds, micros) == encode_utf8("{\"predictions\":["@) + parts.0
            + encode_utf8("],\"micros\":"@) + parts.1 + encode_utf8("}"@),
        parts.0 == joined(preds, preds.len()),
        preds.len() == 0 ==> parts.0.len() == 0,
        reads_as(parts.1, micros as int),
{
    digits_read_back(micros);
    (joined(preds, preds.len()), decimal(micros))
}

// ---------- requests ----------

/// The head of a request ends at the first empty line.
pub proof fn head_ends_at_first_empty_line(buf: Seq<u8>, i: int)
    requires
        0 <= i,
    ensures
        blank_line_from(buf, i) matches Some(p) ==> {
            &&& i <= p
            &&& p + 4 <= buf.len()
            &&& buf[p] == 13 && buf[p + 1] == 10 && buf[p + 2] == 13 && buf[p + 3] == 10
            &&& forall|k: int|
                i <= k < p ==> !(#[trigger] buf[k] == 13 && buf[k + 1] == 10 && buf[k + 2] == 13
                    && buf[k + 3] == 10)
        },
        blank_line_from(buf, i) is None ==> forall|k: int|
            i <= k && k + 4 <= buf.len() ==> !(#[trigger] buf[k] == 13 && buf[k + 1] == 10 && buf[k
                + 2] == 13 && buf[k + 3] == 10),
    decreases buf.len() - i,
{
    if i + 4 <= buf.len() && !blank_line_at(buf, i) {
        head_ends_at_first_empty_line(buf, i + 1);
    }
}

/// A request is whole once its head and as many bytes as the head announces
/// have come: the body is exactly those bytes. It is waited for before, and
/// given up where the end would leave the range of `usize`.
pub proof fn body_is_what_the_head_announces(buf: Seq<u8>, p: int)
    requires
        0 <= p,
        p + 4 <= buf.len(),
        buf[p] == 13 && buf[p + 1] == 10 && buf[p + 2] == 13 && buf[p + 3] == 10,
        forall|k: int|
            0 <= k < p ==> !(#[trigger] buf[k] == 13 && buf[k + 1] == 10 && buf[k + 2] == 13
                && buf[k + 3] == 10),
    ensures
        ({
            let request = head_request(lossy_text(buf.take(p)));
            let end = p + 4 + request.content_length;
            &&& frame_of(buf) is Abort <==> end > usize::MAX
            &&& frame_of(buf) is More <==> buf.len() < end <= usize::MAX
            &&& frame_of(buf) matches FrameView::Whole { request: r, body, consumed } ==> {
                &&& r == request
                &&& consumed == end
                &&& body == buf.subrange(p + 4, end)
            }
        }),
{
    head_ends_at_first_empty_line(buf, 0);
    match blank_line_from(buf, 0) {
        Some(q) => {
            if p < q {
                assert(buf[p] == 13);
            } else if q < p {
                assert(buf[q] == 13);
            }
        },
        None => {
            assert(buf[p] == 13);
        },
    }
}

/// Without an empty line a request is waited for.
pub proof fn request_without_empty_line_is_waited_for(buf: Seq<u8>)
    requires
        forall|k: int|
            0 <= k && k + 4 <= buf.len() ==> !(#[trigger] buf[k] == 13 && buf[k + 1] == 10 && buf[k
                + 2] == 13 && buf[k + 3] == 10),
    ensures
        frame_of(buf) is More,
{
    head_ends_at_first_empty_line(buf, 0);
    if let Some(p) = blank_line_from(buf, 0) {
        assert(buf[p] == 13);
    }
}

proof fn lemma_route_stays(r: Request, all: Seq<Seq<char>>, n: nat)
    ensures
        with_headers(r, all, n).route == r.route,
    decreases n,
{
    if n > 1 {
        lemma_route_stays(r, all, (n - 1) as nat);
    }
}

/// What a request asks for stands in the first two words of its first line.
pub proof fn route_is_method_and_path(text: Seq<char>)
    ensures
        ({
            let all = lines(text, 0);
            let first = if all.len() > 0 {
                words(all[0], 0)
            } else {
                Seq::empty()
            };
            let route = head_request(text).route;
            &&& route == Route::Health <==> first.len() >= 2 && first[0] == "GET"@ && first[1]
                == "/health"@
            &&& route == Route::Predict <==> first.len() >= 2 && first[0] == "POST"@ && first[1]
                == "/predict"@
        }),
{
    reveal_strlit("GET");
    reveal_strlit("POST");
    reveal_strlit("/health");
    reveal_strlit("/predict");
    let all = lines(text, 0);
    let first = if all.len() > 0 {
        all[0]
    } else {
        Seq::empty()
    };
    let start = Request {
        route: route_of(word(first, 0), word(first, 1)),
        content_length: 0,
        want_close: false,
    };
    lemma_route_stays(start, all, all.len());
    assert("GET"@[0] != "POST"@[0]);
    assert(words(Seq::<char>::empty(), 0).len() == 0);
}

/// A header line has a key and a value, before and after its first colon,
/// without the spaces round them.
pub open spec fn is_header(line: Seq<char>, key: Seq<char>, value: Seq<char>) -> bool {
    exists|c: int|
        {
            &&& 0 <= c < line.len()
            &&& #[trigger] line[c] == ':'
            &&& forall|k: int| 0 <= k < c ==> #[trigger] line[k] != ':'
            &&& key == trim(line.subrange(0, c))
            &&& value == trim(line.subrange(c + 1, line.len() as int))
        }
}

proof fn lemma_header(line: Seq<char>, key: Seq<char>, value: Seq<char>)
    ensures
        is_header(line, key, value) <==> {
            let c = seek(line, ':', 0);
            &&& c < line.len()
            &&& key == trim(line.subrange(0, c))
            &&& value == trim(line.subrange(c + 1, line.len() as int))
        },
{
    let c = seek(line, ':', 0);
    search_finds_the_first(line, ':', 0);
    if c < line.len() {
        assert(line[c] == ':');
    }
    if is_header(line, key, value) {
        let d = choose|d: int|
            {
                &&& 0 <= d < line.len()
                &&& #[trigger] line[d] == ':'
                &&& forall|k: int| 0 <= k < d ==> #[trigger] line[k] != ':'
                &&& key == trim(line.subrange(0, d))
                &&& value == trim(line.subrange(d + 1, line.len() as int))
            };
        if c < d {
            assert(line[c] != ':');
        } else if d < c {
            assert(line[d] != ':');
        }
    }
}

/// The announced length is the number in the last header line whose key is
/// `content-length`, in any case of its letters; it is 0 where that is no
/// number, and where there is no such line.
pub proof fn length_is_that_of_last_header(
    text: Seq<char>,
    j: int,
    key: Seq<char>,
    value: Seq<char>,
)
    requires
        1 <= j < lines(text, 0).len(),
        is_header(lines(text, 0)[j], key, value),
        same_ignoring_case(key, "content-length"@),
        forall|i: int, k: Seq<char>, v: Seq<char>|
            j < i < lines(text, 0).len() && #[trigger] is_header(lines(text, 0)[i], k, v)
                ==> !same_ignoring_case(k, "content-length"@),
    ensures
        head_request(text).content_length == match number(value) {
            Some(n) => n,
            None => 0,
        },
{
    let all = lines(text, 0);
    lemma_header(all[j], key, value);
    let start = lemma_start(text);
    lemma_length_stays(start, all, (j + 1) as nat, all.len());
    let m = (j + 1) as nat;
    assert((m - 1) as nat == j as nat);
}

/// Without a header line for it the announced length is 0.
pub proof fn length_is_zero_without_header(text: Seq<char>)
    requires
        forall|i: int, k: Seq<char>, v: Seq<char>|
            1 <= i < lines(text, 0).len() && #[trigger] is_header(lines(text, 0)[i], k, v)
                ==> !same_ignoring_case(k, "content-length"@),
    ensures
        head_request(text).content_length == 0,
{
    let all = lines(text, 0);
    let start = lemma_start(text);
    if all.len() > 0 {
        lemma_length_stays(start, all, 1, all.len());
    }
}

proof fn lemma_start(text: Seq<char>) -> (start: Request)
    ensures
        head_request(text) == with_headers(start, lines(text, 0), lines(text, 0).len()),
        start.content_length == 0,
        !start.want_close,
{
    let all = lines(text, 0);
    let first = if all.len() > 0 {
        all[0]
    } else {
        Seq::empty()
    };
    Request {
        route: route_of(word(first, 0), word(first, 1)),
        content_length: 0,
        want_close: false,
    }
}

proof fn lemma_length_stays(r: Request, all: Seq<Seq<char>>, from: nat, to: nat)
    requires
        1 <= from <= to <= all.len(),
        forall|i: int, k: Seq<char>, v: Seq<char>|
            from <= i < to && #[trigger] is_header(all[i], k, v) ==> !same_ignoring_case(
                k,
                "content-length"@,
            ),
    ensures
        with_headers(r, all, to).content_length == with_headers(r, all, from).content_length,
    decreases to - from,
{
    if from < to {
        let n = (to - 1) as nat;
        lemma_length_stays(r, all, from, n);
        let line = all[n as int];
        let c = seek(line, ':', 0);
        search_finds_the_first(line, ':', 0);
        if c < line.len() {
            let k = trim(line.subrange(0, c));
            let v = trim(line.subrange(c + 1, line.len() as int));
            lemma_header(line, k, v);
            assert(is_header(all[n as int], k, v));
        }
    }
}

/// The connection is to be closed exactly where some header line has the key
/// `connection` and the value `close`, in any case of their letters.
pub proof fn close_is_asked_for_in_a_header(text: Seq<char>)
    ensures
        head_request(text).want_close <==> exists|i: int, k: Seq<char>, v: Seq<char>|
            {
                &&& 1 <= i < lines(text, 0).len()
                &&& #[trigger] is_header(lines(text, 0)[i], k, v)
                &&& same_ignoring_case(k, "connection"@)
                &&& same_ignoring_case(v, "close"@)
            },
{
    let all = lines(text, 0);
    closes_where_asked(text);
    if head_request(text).want_close {
        let i = choose|i: int|
            1 <= i < all.len() && asks_to_close(#[trigger] all[i]);
        let line = all[i];
        let c = seek(line, ':', 0);
        let k = trim(line.subrange(0, c));
        let v = trim(line.subrange(c + 1, line.len() as int));
        lemma_header(line, k, v);
        assert(is_header(all[i], k, v));
    }
    if exists|i: int, k: Seq<char>, v: Seq<char>|
        {
            &&& 1 <= i < all.len()
            &&& #[trigger] is_header(all[i], k, v)
            &&& same_ignoring_case(k, "connection"@)
            &&& same_ignoring_case(v, "close"@)
        } {
        let (i, k, v) = choose|i: int, k: Seq<char>, v: Seq<char>|
            {
                &&& 1 <= i < all.len()
                &&& #[trigger] is_header(all[i], k, v)
                &&& same_ignoring_case(k, "connection"@)
                &&& same_ignoring_case(v, "close"@)
            };
        lemma_header(all[i], k, v);
        assert(asks_to_close(all[i]));
    }
}

// ---------- batches ----------

/// A body is a batch where it has a multiple of 784 times 4 bytes and is not
/// empty.
pub proof fn batches_are_whole_samples(len: nat)
    ensures
        is_batch(len) <==> len > 0 && len % 3136 == 0,
{
}

/// Feature `f` of sample `s` is what the four bytes at place
/// `4 (784 s + f)` of the body encode.
pub proof fn feature_is_what_its_bytes_encode<S: Scalar>(
    body: Seq<u8>,
    t: TensorView<S>,
    s: int,
    f: int,
)
    requires
        body.len() % 3136 == 0,
        batch_gives(body, t),
        0 <= s < body.len() / 3136,
        0 <= f < 784,
    ensures
        t.shape.len() == 2,
        t.shape[0] == body.len() / 3136,
        t.shape[1] == 784,
        row_major(t.shape, t.strides),
        t.data.len() == t.shape[0] * 784,
        ({
            let p = 4 * (784 * s + f);
            call_ensures(
                S::from_bits,
                ((body[p] + 0x100 * body[p + 1] + 0x1_0000 * body[p + 2] + 0x100_0000 * body[p
                    + 3]) as u32,),
                t.data[784 * s + f],
            )
        }),
{
    let n = body.len() / (IN_FEATURES as nat * 4);
    let bits = bits_at(body, 0, n * IN_FEATURES as nat);
    lemma_product_2(t.shape);
    let k = 784 * s + f;
    assert(from_bits_gives(bits[k], t.data[k]));
    assert(bits[k] == u32_at(body, 4 * k));
}

} // verus!
