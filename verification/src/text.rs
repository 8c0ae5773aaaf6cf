//! Reading words, lines and numbers from text given as characters.
use vstd::prelude::*;
use vstd::slice::slice_subrange;
use vstd::string::StrSliceExecFns;

verus! {

/// A character of the Unicode class White_Space.
pub open spec fn is_space(c: char) -> bool {
    let n = c as u32;
    ||| 0x9 <= n <= 0xd
    ||| n == 0x20
    ||| n == 0x85
    ||| n == 0xa0
    ||| n == 0x1680
    ||| 0x2000 <= n <= 0x200a
    ||| n == 0x2028
    ||| n == 0x2029
    ||| n == 0x202f
    ||| n == 0x205f
    ||| n == 0x3000
}

/// The first place from `i` on that holds `c`, or the length.
pub open spec fn seek(s: Seq<char>, c: char, i: int) -> int
    decreases s.len() - i,
{
    if i >= s.len() {
        s.len() as int
    } else if s[i] == c {
        i
    } else {
        seek(s, c, i + 1)
    }
}

/// The first place from `i` on that holds no space, or the length.
pub open spec fn skip_spaces(s: Seq<char>, i: int) -> int
    decreases s.len() - i,
{
    if i >= s.len() {
        s.len() as int
    } else if is_space(s[i]) {
        skip_spaces(s, i + 1)
    } else {
        i
    }
}

/// The first place from `i` on that holds a space, or the length.
pub open spec fn skip_word(s: Seq<char>, i: int) -> int
    decreases s.len() - i,
{
    if i >= s.len() {
        s.len() as int
    } else if is_space(s[i]) {
        i
    } else {
        skip_word(s, i + 1)
    }
}

/// How much of the first `n` characters is left without the spaces at their
/// end.
pub open spec fn without_last_spaces(s: Seq<char>, n: nat) -> nat
    decreases n,
{
    if n == 0 {
        0
    } else if is_space(s[n - 1]) {
        without_last_spaces(s, (n - 1) as nat)
    } else {
        n
    }
}

/// The text without the spaces at its two ends.
pub open spec fn trim(s: Seq<char>) -> Seq<char> {
    let from = skip_spaces(s, 0);
    let to = without_last_spaces(s, s.len()) as int;
    if from < to {
        s.subrange(from, to)
    } else {
        Seq::empty()
    }
}

/// The words of a text from place `i` on: its parts between spaces.
pub open spec fn words(s: Seq<char>, i: int) -> Seq<Seq<char>>
    decreases s.len() - i,
{
    let from = skip_spaces(s, i);
    let to = skip_word(s, from);
    if i < 0 || i >= s.len() || from >= s.len() {
        Seq::empty()
    } else {
        proof {
            lemma_word_progress(s, i);
        }
        seq![s.subrange(from, to)] + words(s, to)
    }
}

/// The word at a place in the list of words, or nothing.
pub open spec fn word(s: Seq<char>, n: int) -> Seq<char> {
    if n < words(s, 0).len() {
        words(s, 0)[n]
    } else {
        Seq::empty()
    }
}

/// A line without the carriage return before its newline.
pub open spec fn without_cr(s: Seq<char>) -> Seq<char> {
    if s.len() > 0 && s.last() == '\r' {
        s.drop_last()
    } else {
        s
    }
}

/// The lines of a text from place `i` on. A line ends with a newline, or with
/// a carriage return and a newline, or with the text.
pub open spec fn lines(s: Seq<char>, i: int) -> Seq<Seq<char>>
    decreases s.len() - i,
{
    let to = seek(s, '\n', i);
    if i < 0 || i >= s.len() {
        Seq::empty()
    } else if to >= s.len() {
        seq![s.subrange(i, s.len() as int)]
    } else {
        proof {
            lemma_seek_range(s, '\n', i);
        }
        seq![without_cr(s.subrange(i, to))] + lines(s, to + 1)
    }
}

/// The code of a character, with ASCII capitals as small letters.
pub open spec fn folded(c: char) -> u32 {
    let n = c as u32;
    if 65 <= n <= 90 {
        (n + 32) as u32
    } else {
        n
    }
}

/// Two texts are the same but for the case of ASCII letters.
pub open spec fn same_ignoring_case(a: Seq<char>, b: Seq<char>) -> bool {
    a.len() == b.len() && forall|i: int| 0 <= i < a.len() ==> folded(#[trigger] a[i]) == folded(b[i])
}

/// A decimal digit.
pub open spec fn is_digit(c: char) -> bool {
    48 <= c as u32 <= 57
}

/// The text is made of decimal digits.
pub open spec fn all_digits(s: Seq<char>) -> bool {
    forall|i: int| 0 <= i < s.len() ==> is_digit(#[trigger] s[i])
}

/// The number that decimal digits write.
pub open spec fn digits_value(s: Seq<char>) -> nat
    decreases s.len(),
{
    if s.len() == 0 {
        0
    } else {
        digits_value(s.drop_last()) * 10 + (s.last() as u32 - 48) as nat
    }
}

/// The digits of a number, without the plus sign that may stand before them.
pub open spec fn unsigned_digits(s: Seq<char>) -> Seq<char> {
    if s.len() > 0 && s[0] == '+' {
        s.skip(1)
    } else {
        s
    }
}

/// The number that a text writes, where it is one and fits a `usize`.
pub open spec fn number(s: Seq<char>) -> Option<usize> {
    let d = unsigned_digits(s);
    if d.len() > 0 && all_digits(d) && digits_value(d) <= usize::MAX {
        Some(digits_value(d) as usize)
    } else {
        None
    }
}

/// A search stays inside the text.
pub proof fn lemma_seek_range(s: Seq<char>, c: char, i: int)
    requires
        0 <= i <= s.len(),
    ensures
        i <= seek(s, c, i) <= s.len(),
    decreases s.len() - i,
{
    if i < s.len() && s[i] != c {
        lemma_seek_range(s, c, i + 1);
    }
}

proof fn lemma_skip_spaces_stops(s: Seq<char>, i: int)
    requires
        0 <= i <= s.len(),
    ensures
        i <= skip_spaces(s, i) <= s.len(),
        skip_spaces(s, i) < s.len() ==> !is_space(s[skip_spaces(s, i)]),
    decreases s.len() - i,
{
    if i < s.len() && is_space(s[i]) {
        lemma_skip_spaces_stops(s, i + 1);
    }
}

proof fn lemma_skip_word_range(s: Seq<char>, i: int)
    requires
        0 <= i <= s.len(),
    ensures
        i <= skip_word(s, i) <= s.len(),
    decreases s.len() - i,
{
    if i < s.len() && !is_space(s[i]) {
        lemma_skip_word_range(s, i + 1);
    }
}

/// A word begins at or after the place where it is looked for, and has a length.
pub proof fn lemma_word_progress(s: Seq<char>, i: int)
    requires
        0 <= i < s.len(),
        skip_spaces(s, i) < s.len(),
    ensures
        i <= skip_spaces(s, i) < skip_word(s, skip_spaces(s, i)) <= s.len(),
{
    lemma_skip_spaces_stops(s, i);
    lemma_skip_word_range(s, skip_spaces(s, i) + 1);
}

fn space(c: char) -> (b: bool)
    ensures
        b == is_space(c),
{
    let n: u32 = c as u32;
    (0x9 <= n && n <= 0xd) || n == 0x20 || n == 0x85 || n == 0xa0 || n == 0x1680 || (0x2000 <= n
        && n <= 0x200a) || n == 0x2028 || n == 0x2029 || n == 0x202f || n == 0x205f || n == 0x3000
}

/// The first place from `from` on that holds `c`, or the length.
pub fn find_char(s: &[char], c: char, from: usize) -> (at: usize)
    requires
        from <= s@.len(),
    ensures
        at == seek(s@, c, from as int),
        from <= at <= s@.len(),
{
    let mut i: usize = from;
    while i < s.len()
        invariant
            from <= i <= s@.len(),
            seek(s@, c, i as int) == seek(s@, c, from as int),
        decreases s@.len() - i,
    {
        if s[i] == c {
            return i;
        }
        i = i + 1;
    }
    i
}

fn pass_spaces(s: &[char], from: usize) -> (at: usize)
    requires
        from <= s@.len(),
    ensures
        at == skip_spaces(s@, from as int),
        from <= at <= s@.len(),
{
    let mut i: usize = from;
    while i < s.len()
        invariant
            from <= i <= s@.len(),
            skip_spaces(s@, i as int) == skip_spaces(s@, from as int),
        decreases s@.len() - i,
    {
        if !space(s[i]) {
            return i;
        }
        i = i + 1;
    }
    i
}

fn pass_word(s: &[char], from: usize) -> (at: usize)
    requires
        from <= s@.len(),
    ensures
        at == skip_word(s@, from as int),
        from <= at <= s@.len(),
        from < s@.len() && !is_space(s@[from as int]) ==> from < at,
{
    let mut i: usize = from;
    while i < s.len()
        invariant
            from <= i <= s@.len(),
            skip_word(s@, i as int) == skip_word(s@, from as int),
            i == from || !is_space(s@[from as int]),
        decreases s@.len() - i,
    {
        if space(s[i]) {
            return i;
        }
        i = i + 1;
    }
    i
}

/// The text without the spaces at its two ends.
pub fn trimmed<'a>(s: &'a [char]) -> (t: &'a [char])
    ensures
        t@ == trim(s@),
{
    let from: usize = pass_spaces(s, 0);
    let mut to: usize = s.len();
    while to > 0 && space(s[to - 1])
        invariant
            to <= s@.len(),
            without_last_spaces(s@, to as nat) == without_last_spaces(s@, s@.len()),
        decreases to,
    {
        to = to - 1;
    }
    if from < to {
        slice_subrange(s, from, to)
    } else {
        let t: &[char] = slice_subrange(s, 0, 0);
        assert(t@ =~= Seq::<char>::empty());
        t
    }
}

/// The first two words of a text; nothing stands for a missing one.
pub fn first_two_words<'a>(s: &'a [char]) -> (r: (&'a [char], &'a [char]))
    ensures
        r.0@ == word(s@, 0),
        r.1@ == word(s@, 1),
{
    let a: usize = pass_spaces(s, 0);
    proof {
        lemma_skip_spaces_stops(s@, 0);
    }
    let b: usize = pass_word(s, a);
    let c: usize = pass_spaces(s, b);
    proof {
        lemma_skip_spaces_stops(s@, b as int);
    }
    let d: usize = pass_word(s, c);
    proof {
        let empty = Seq::<char>::empty();
        assert(s@.subrange(s@.len() as int, s@.len() as int) =~= empty);
        if a < s@.len() {
            assert(words(s@, 0) == seq![s@.subrange(a as int, b as int)] + words(s@, b as int));
            if c < s@.len() {
                assert(words(s@, b as int) == seq![s@.subrange(c as int, d as int)] + words(
                    s@,
                    d as int,
                ));
            } else {
                assert(words(s@, b as int).len() == 0);
            }
        } else {
            assert(words(s@, 0).len() == 0);
        }
    }
    (slice_subrange(s, a, b), slice_subrange(s, c, d))
}

/// The lines of a text.
pub fn text_lines<'a>(s: &'a [char]) -> (out: Vec<&'a [char]>)
    ensures
        out@.len() == lines(s@, 0).len(),
        forall|k: int| 0 <= k < out@.len() ==> (#[trigger] out@[k])@ == lines(s@, 0)[k],
{
    let mut out: Vec<&'a [char]> = Vec::new();
    let mut i: usize = 0;
    while i < s.len()
        invariant
            i <= s@.len(),
            out@.len() + lines(s@, i as int).len() == lines(s@, 0).len(),
            forall|k: int| 0 <= k < out@.len() ==> (#[trigger] out@[k])@ == lines(s@, 0)[k],
            forall|k: int|
                0 <= k < lines(s@, i as int).len() ==> #[trigger] lines(s@, i as int)[k] == lines(
                    s@,
                    0,
                )[out@.len() + k],
        decreases s@.len() - i,
    {
        let to: usize = find_char(s, '\n', i);
        let ghost rest = lines(s@, i as int);
        assert(rest[0] == lines(s@, 0)[out@.len() as int]);
        if to >= s.len() {
            let line: &[char] = slice_subrange(s, i, to);
            out.push(line);
            assert(lines(s@, to as int).len() == 0);
            i = to;
        } else {
            let mut end: usize = to;
            if end > i && s[end - 1] == '\r' {
                end = end - 1;
            }
            let line: &[char] = slice_subrange(s, i, end);
            assert(line@ =~= without_cr(s@.subrange(i as int, to as int)));
            proof {
                assert(rest == seq![without_cr(s@.subrange(i as int, to as int))] + lines(
                    s@,
                    to + 1,
                ));
                assert forall|k: int| 0 <= k < lines(s@, to + 1).len() implies #[trigger] lines(
                    s@,
                    to + 1,
                )[k] == lines(s@, 0)[out@.len() + 1 + k] by {
                    assert(rest[k + 1] == lines(s@, to + 1)[k]);
                }
            }
            out.push(line);
            i = to + 1;
        }
    }
    out
}

/// The characters of a text.
pub fn chars_of(text: &str) -> (out: Vec<char>)
    ensures
        out@ == text@,
{
    let mut out: Vec<char> = Vec::new();
    for c in it: text.chars()
        invariant
            out@ == it.seq().take(it.index()),
            it.seq() == text@,
    {
        out.push(c);
        assert(out@ =~= it.seq().take(it.index() + 1));
    }
    assert(out@ =~= text@);
    out
}

/// Whether a text is a given word.
pub fn text_is(s: &[char], lit: &str) -> (same: bool)
    ensures
        same == (s@ == lit@),
{
    let n: usize = lit.unicode_len();
    if s.len() != n {
        return false;
    }
    let mut i: usize = 0;
    while i < n
        invariant
            i <= n,
            n == lit@.len(),
            n == s@.len(),
            forall|j: int| 0 <= j < i ==> s@[j] == lit@[j],
        decreases n - i,
    {
        if s[i] != lit.get_char(i) {
            return false;
        }
        i = i + 1;
    }
    assert(s@ =~= lit@);
    true
}

fn fold(c: char) -> (n: u32)
    ensures
        n == folded(c),
{
    let n: u32 = c as u32;
    if 65 <= n && n <= 90 {
        n + 32
    } else {
        n
    }
}

/// Whether a text is a given word but for the case of ASCII letters.
pub fn text_is_ignoring_case(s: &[char], lit: &str) -> (same: bool)
    ensures
        same == same_ignoring_case(s@, lit@),
{
    let n: usize = lit.unicode_len();
    if s.len() != n {
        return false;
    }
    let mut i: usize = 0;
    while i < n
        invariant
            i <= n,
            n == lit@.len(),
            n == s@.len(),
            forall|j: int| 0 <= j < i ==> folded(#[trigger] s@[j]) == folded(lit@[j]),
        decreases n - i,
    {
        if fold(s[i]) != fold(lit.get_char(i)) {
            assert(folded(s@[i as int]) != folded(lit@[i as int]));
            return false;
        }
        i = i + 1;
    }
    true
}

proof fn lemma_digits_grow(s: Seq<char>, n: int)
    requires
        0 <= n <= s.len(),
        all_digits(s),
    ensures
        digits_value(s.take(n)) <= digits_value(s),
    decreases s.len() - n,
{
    if n == s.len() {
        assert(s.take(n) =~= s);
    } else {
        lemma_digits_grow(s, n + 1);
        assert(s.take(n + 1).drop_last() =~= s.take(n));
        assert(s.take(n + 1).last() == s[n]);
        assert(is_digit(s[n]));
    }
}

/// The number that a text writes, where it is one and fits a `usize`.
pub fn parse_number(s: &[char]) -> (v: Option<usize>)
    ensures
        v == number(s@),
{
    let d: &[char] = if s.len() > 0 && s[0] == '+' {
        slice_subrange(s, 1, s.len())
    } else {
        s
    };
    assert(d@ =~= unsigned_digits(s@));
    if d.len() == 0 {
        return None;
    }
    let mut v: usize = 0;
    let mut i: usize = 0;
    assert(d@.take(0) =~= Seq::<char>::empty());
    while i < d.len()
        invariant
            i <= d@.len(),
            d@ == unsigned_digits(s@),
            forall|j: int| 0 <= j < i ==> is_digit(#[trigger] d@[j]),
            v == digits_value(d@.take(i as int)),
        decreases d@.len() - i,
    {
        let n: u32 = d[i] as u32;
        if n < 48 || 57 < n {
            assert(!is_digit(d@[i as int]));
            return None;
        }
        let digit: usize = (n - 48) as usize;
        proof {
            assert(is_digit(d@[i as int]));
            assert(d@.take(i + 1).drop_last() =~= d@.take(i as int));
            assert(d@.take(i + 1).last() == d@[i as int]);
            assert(digits_value(d@.take(i + 1)) == v * 10 + digit);
        }
        match v.checked_mul(10) {
            Some(tens) => {
                match tens.checked_add(digit) {
                    Some(next) => {
                        v = next;
                    },
                    None => {
                        proof {
                            lemma_too_large(d@, i + 1);
                        }
                        return None;
                    },
                }
            },
            None => {
                proof {
                    lemma_too_large(d@, i + 1);
                }
                return None;
            },
        }
        i = i + 1;
    }
    assert(d@.take(i as int) =~= d@);
    Some(v)
}

proof fn lemma_too_large(d: Seq<char>, n: int)
    requires
        0 <= n <= d.len(),
        digits_value(d.take(n)) > usize::MAX,
    ensures
        all_digits(d) ==> digits_value(d) > usize::MAX,
{
    if all_digits(d) {
        lemma_digits_grow(d, n);
    }
}

} // verus!
