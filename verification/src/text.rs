//! Characters, lines and numbers in text.
//!
//! Text is read as the sequence of its characters. Each function here is proved
//! against a specification function on such sequences.
use vstd::prelude::*;

verus! {

/// `String::push`: append one character.
#[verifier::external_body]
pub(crate) fn push_char(s: &mut String, c: char)
    ensures
        final(s)@ == old(s)@.push(c),
{
    s.push(c)
}

/// The characters of `s`.
pub(crate) fn chars_of(s: &str) -> (r: Vec<char>)
    ensures
        r@ == s@,
{
    let mut out: Vec<char> = Vec::new();
    for c in it: s.chars()
        invariant
            it.seq() == s@,
            out@ == s@.take(it.index()),
    {
        out.push(c);
        assert(out@ =~= s@.take(it.index() + 1));
    }
    assert(out@ =~= s@);
    out
}

/// The characters of `chars` from `from` up to `to`, as a string.
pub(crate) fn string_of(chars: &Vec<char>, from: usize, to: usize) -> (r: String)
    requires
        from <= to <= chars.len(),
    ensures
        r@ == chars@.subrange(from as int, to as int),
{
    let mut out = String::new();
    let mut i: usize = from;
    while i < to
        invariant
            from <= i <= to <= chars.len(),
            out@ == chars@.subrange(from as int, i as int),
        decreases to - i,
    {
        push_char(&mut out, chars[i]);
        i = i + 1;
        assert(out@ =~= chars@.subrange(from as int, i as int));
    }
    out
}

/// The characters of `chars` from `from` up to `to`.
pub(crate) fn piece(chars: &Vec<char>, from: usize, to: usize) -> (r: Vec<char>)
    requires
        from <= to <= chars.len(),
    ensures
        r@ == chars@.subrange(from as int, to as int),
{
    let mut out: Vec<char> = Vec::new();
    let mut i: usize = from;
    while i < to
        invariant
            from <= i <= to <= chars.len(),
            out@ == chars@.subrange(from as int, i as int),
        decreases to - i,
    {
        out.push(chars[i]);
        i = i + 1;
        assert(out@ =~= chars@.subrange(from as int, i as int));
    }
    out
}

/// Whether two texts are the same.
pub(crate) fn same_text(a: &Vec<char>, b: &Vec<char>) -> (r: bool)
    ensures
        r == (a@ == b@),
{
    if a.len() != b.len() {
        return false;
    }
    let mut i: usize = 0;
    while i < a.len()
        invariant
            i <= a.len() == b.len(),
            a@.take(i as int) == b@.take(i as int),
        decreases a.len() - i,
    {
        if a[i] != b[i] {
            assert(a@[i as int] != b@[i as int]);
            return false;
        }
        i = i + 1;
        assert(a@.take(i as int) =~= b@.take(i as int));
    }
    assert(a@ =~= a@.take(i as int));
    assert(b@ =~= b@.take(i as int));
    true
}

/// Whether a text reads `word`.
pub(crate) fn reads(text: &Vec<char>, word: &str) -> (r: bool)
    ensures
        r == (text@ == word@),
{
    same_text(text, &chars_of(word))
}

/// Whether `text` has `word` at place `at`.
pub(crate) fn has_at(text: &Vec<char>, at: usize, word: &Vec<char>) -> (r: bool)
    requires
        at <= text.len(),
    ensures
        r == occurs_at(text@, at as int, word@),
{
    if word.len() > text.len() - at {
        return false;
    }
    let mut i: usize = 0;
    while i < word.len()
        invariant
            i <= word.len() <= text.len() - at,
            at <= text.len(),
            text@.subrange(at as int, at + i) == word@.take(i as int),
        decreases word.len() - i,
    {
        if text[at + i] != word[i] {
            assert(text@.subrange(at as int, at + word.len())[i as int] != word@[i as int]);
            return false;
        }
        i = i + 1;
        assert(text@.subrange(at as int, at + i) =~= word@.take(i as int));
    }
    assert(word@.take(i as int) =~= word@);
    true
}

/// `word` stands in `text` from place `at` on.
pub open spec fn occurs_at(text: Seq<char>, at: int, word: Seq<char>) -> bool {
    &&& 0 <= at
    &&& at + word.len() <= text.len()
    &&& text.subrange(at, at + word.len()) == word
}

/// Whether `text` begins with `word`.
pub(crate) fn starts_with(text: &Vec<char>, word: &str) -> (r: bool)
    ensures
        r == occurs_at(text@, 0, word@),
{
    has_at(text, 0, &chars_of(word))
}

/// White space, as Unicode has it.
pub open spec fn is_white(c: char) -> bool {
    let n = c as u32;
    ||| 0x09 <= n <= 0x0D
    ||| n == 0x20
    ||| n == 0x85
    ||| n == 0xA0
    ||| n == 0x1680
    ||| 0x2000 <= n <= 0x200A
    ||| n == 0x2028
    ||| n == 0x2029
    ||| n == 0x202F
    ||| n == 0x205F
    ||| n == 0x3000
}

pub(crate) fn white(c: char) -> (r: bool)
    ensures
        r == is_white(c),
{
    let n: u32 = c as u32;
    (0x09 <= n && n <= 0x0D) || n == 0x20 || n == 0x85 || n == 0xA0 || n == 0x1680 || (0x2000 <= n
        && n <= 0x200A) || n == 0x2028 || n == 0x2029 || n == 0x202F || n == 0x205F || n == 0x3000
}

/// `s` without the white space in front.
pub open spec fn trim_start(s: Seq<char>) -> Seq<char>
    decreases s.len(),
{
    if s.len() > 0 && is_white(s[0]) {
        trim_start(s.skip(1))
    } else {
        s
    }
}

/// `s` without the white space behind.
pub open spec fn trim_end(s: Seq<char>) -> Seq<char>
    decreases s.len(),
{
    if s.len() > 0 && is_white(s.last()) {
        trim_end(s.drop_last())
    } else {
        s
    }
}

/// `s` without the white space at both ends.
pub open spec fn trimmed(s: Seq<char>) -> Seq<char> {
    trim_end(trim_start(s))
}

/// `text` without the white space at both ends.
pub(crate) fn trim(text: &Vec<char>) -> (r: Vec<char>)
    ensures
        r@ == trimmed(text@),
{
    let mut from: usize = 0;
    assert(text@.skip(0) =~= text@);
    while from < text.len() && white(text[from])
        invariant
            from <= text.len(),
            trim_start(text@) == trim_start(text@.skip(from as int)),
        decreases text.len() - from,
    {
        assert(text@.skip(from as int).skip(1) =~= text@.skip(from + 1));
        from = from + 1;
    }
    let mut to: usize = text.len();
    assert(trim_start(text@) == text@.skip(from as int));
    assert(text@.subrange(from as int, to as int) =~= text@.skip(from as int));
    while to > from && white(text[to - 1])
        invariant
            from <= to <= text.len(),
            trimmed(text@) == trim_end(text@.subrange(from as int, to as int)),
        decreases to,
    {
        assert(text@.subrange(from as int, to as int).drop_last() =~= text@.subrange(
            from as int,
            to - 1,
        ));
        to = to - 1;
    }
    piece(text, from, to)
}

/// The first place of `c` in `s` from `at` on, or the length of `s`.
pub open spec fn next_place(s: Seq<char>, c: char, at: int) -> int
    decreases s.len() - at,
{
    if at >= s.len() || at < 0 {
        s.len() as int
    } else if s[at] == c {
        at
    } else {
        next_place(s, c, at + 1)
    }
}

pub proof fn lemma_next_place(s: Seq<char>, c: char, at: int)
    requires
        0 <= at <= s.len(),
    ensures
        at <= next_place(s, c, at) <= s.len(),
        next_place(s, c, at) < s.len() ==> s[next_place(s, c, at)] == c,
        forall|i: int| at <= i < next_place(s, c, at) ==> #[trigger] s[i] != c,
    decreases s.len() - at,
{
    if at < s.len() && s[at] != c {
        lemma_next_place(s, c, at + 1);
    }
}

/// The first place of `c` in `text` from `at` on, or the length of `text`.
pub(crate) fn find_char(text: &Vec<char>, c: char, at: usize) -> (r: usize)
    requires
        at <= text.len(),
    ensures
        r == next_place(text@, c, at as int),
        at <= r <= text.len(),
{
    let mut i: usize = at;
    while i < text.len() && text[i] != c
        invariant
            at <= i <= text.len(),
            next_place(text@, c, at as int) == next_place(text@, c, i as int),
        decreases text.len() - i,
    {
        i = i + 1;
    }
    i
}

/// The parts of `s` between the occurrences of `sep`.
pub open spec fn split_on(s: Seq<char>, sep: char) -> Seq<Seq<char>>
    decreases s.len(),
{
    let i = next_place(s, sep, 0);
    if 0 <= i < s.len() {
        seq![s.take(i)] + split_on(s.skip(i + 1), sep)
    } else {
        seq![s]
    }
}

/// A list of texts, each as its characters.
pub open spec fn texts(v: Seq<Vec<char>>) -> Seq<Seq<char>> {
    v.map_values(|t: Vec<char>| t@)
}

/// A shifted search finds the shifted place.
proof fn lemma_next_place_skip(s: Seq<char>, c: char, k: int, at: int)
    requires
        0 <= k,
        0 <= at,
        k + at <= s.len(),
    ensures
        next_place(s.skip(k), c, at) + k == next_place(s, c, k + at),
    decreases s.len() - k - at,
{
    if k + at < s.len() && s[k + at] != c {
        lemma_next_place_skip(s, c, k, at + 1);
    }
}

/// Split `text` at every `sep`.
pub(crate) fn split(text: &Vec<char>, sep: char) -> (r: Vec<Vec<char>>)
    ensures
        texts(r@) == split_on(text@, sep),
{
    let mut out: Vec<Vec<char>> = Vec::new();
    let mut from: usize = 0;
    assert(text@.skip(0) =~= text@);
    assert(texts(out@) + split_on(text@, sep) =~= split_on(text@, sep));
    loop
        invariant
            from <= text.len(),
            split_on(text@, sep) == texts(out@) + split_on(text@.skip(from as int), sep),
        decreases text.len() - from,
    {
        let i: usize = find_char(text, sep, from);
        let ghost rest = text@.skip(from as int);
        let part = piece(text, from, i);
        let ghost before = out@;
        out.push(part);
        proof {
            lemma_next_place_skip(text@, sep, from as int, 0);
            assert(next_place(rest, sep, 0) == i - from);
            assert(part@ =~= rest.take(i - from));
            assert(texts(out@) =~= texts(before).push(part@));
        }
        if i == text.len() {
            proof {
                assert(rest.take(i - from) =~= rest);
                assert(texts(before) + seq![rest] =~= texts(out@));
            }
            return out;
        }
        proof {
            assert(rest.skip(i - from + 1) =~= text@.skip(i + 1));
            assert(texts(before) + (seq![part@] + split_on(text@.skip(i + 1), sep)) =~= texts(out@)
                + split_on(text@.skip(i + 1), sep));
        }
        from = i + 1;
    }
}

/// A line without the carriage return that belongs to its line end.
pub open spec fn without_cr(s: Seq<char>) -> Seq<char> {
    if s.len() > 0 && s.last() == '\r' {
        s.drop_last()
    } else {
        s
    }
}

/// The lines of `s`. A line ends with a line feed or with a carriage return and
/// a line feed; the end of the last line may be missing.
pub open spec fn lines_of(s: Seq<char>) -> Seq<Seq<char>>
    decreases s.len(),
{
    let i = next_place(s, '\n', 0);
    if s.len() == 0 {
        Seq::empty()
    } else if 0 <= i < s.len() {
        seq![without_cr(s.take(i))] + lines_of(s.skip(i + 1))
    } else {
        seq![s]
    }
}

/// The lines of `text`.
pub(crate) fn lines(text: &Vec<char>) -> (r: Vec<Vec<char>>)
    ensures
        texts(r@) == lines_of(text@),
{
    let mut out: Vec<Vec<char>> = Vec::new();
    let mut from: usize = 0;
    assert(text@.skip(0) =~= text@);
    assert(texts(out@) + lines_of(text@) =~= lines_of(text@));
    while from < text.len()
        invariant
            from <= text.len(),
            lines_of(text@) == texts(out@) + lines_of(text@.skip(from as int)),
        decreases text.len() - from,
    {
        let i: usize = find_char(text, '\n', from);
        let ghost rest = text@.skip(from as int);
        let ghost before = out@;
        proof {
            lemma_next_place_skip(text@, '\n', from as int, 0);
            assert(next_place(rest, '\n', 0) == i - from);
        }
        if i == text.len() {
            let part = piece(text, from, i);
            out.push(part);
            proof {
                assert(part@ =~= rest);
                assert(text@.skip(i as int) =~= Seq::empty());
                assert(texts(out@) =~= texts(before).push(part@));
                assert(texts(before) + seq![rest] =~= texts(out@) + lines_of(
                    text@.skip(i as int),
                ));
            }
            from = i;
        } else {
            let end: usize = if i > from && text[i - 1] == '\r' {
                i - 1
            } else {
                i
            };
            let part = piece(text, from, end);
            out.push(part);
            proof {
                assert(rest.take(i - from) =~= text@.subrange(from as int, i as int));
                assert(part@ =~= without_cr(rest.take(i - from)));
                assert(rest.skip(i - from + 1) =~= text@.skip(i + 1));
                assert(texts(out@) =~= texts(before).push(part@));
                assert(texts(before) + (seq![part@] + lines_of(text@.skip(i + 1))) =~= texts(out@)
                    + lines_of(text@.skip(i + 1)));
            }
            from = i + 1;
        }
    }
    assert(text@.skip(from as int) =~= Seq::empty());
    assert(texts(out@) + lines_of(text@.skip(from as int)) =~= texts(out@));
    out
}

/// The character of a decimal digit.
pub open spec fn digit(d: nat) -> char {
    if d == 0 {
        '0'
    } else if d == 1 {
        '1'
    } else if d == 2 {
        '2'
    } else if d == 3 {
        '3'
    } else if d == 4 {
        '4'
    } else if d == 5 {
        '5'
    } else if d == 6 {
        '6'
    } else if d == 7 {
        '7'
    } else if d == 8 {
        '8'
    } else {
        '9'
    }
}

fn digit_char(d: u64) -> (c: char)
    requires
        d < 10,
    ensures
        c == digit(d as nat),
{
    match d {
        0 => '0',
        1 => '1',
        2 => '2',
        3 => '3',
        4 => '4',
        5 => '5',
        6 => '6',
        7 => '7',
        8 => '8',
        _ => '9',
    }
}

/// The value of a decimal digit.
pub open spec fn digit_value(c: char) -> Option<nat> {
    if '0' <= c <= '9' {
        Some((c as u32 - '0' as u32) as nat)
    } else {
        None
    }
}

/// The decimal notation of `n`, without leading zeros.
pub open spec fn decimal(n: nat) -> Seq<char>
    decreases n,
{
    if n < 10 {
        seq![digit(n)]
    } else {
        decimal(n / 10).push(digit(n % 10))
    }
}

/// The decimal notation of an integer.
pub open spec fn signed_decimal(n: int) -> Seq<char> {
    if n < 0 {
        seq!['-'] + decimal((-n) as nat)
    } else {
        decimal(n as nat)
    }
}

/// `n` zeros.
pub open spec fn zeros(n: nat) -> Seq<char> {
    Seq::new(n, |i: int| '0')
}

/// The decimal notation of `n`, filled up with zeros to `width` places.
pub open spec fn padded(n: nat, width: nat) -> Seq<char> {
    let d = decimal(n);
    if d.len() >= width {
        d
    } else {
        zeros((width - d.len()) as nat) + d
    }
}

/// Append the decimal notation of `n`.
pub(crate) fn push_decimal(out: &mut String, n: u64)
    ensures
        final(out)@ == old(out)@ + decimal(n as nat),
    decreases n,
{
    if n >= 10 {
        push_decimal(out, n / 10);
    }
    push_char(out, digit_char(n % 10));
    assert(out@ =~= old(out)@ + decimal(n as nat));
}

/// Append the decimal notation of `n`.
pub(crate) fn push_signed(out: &mut String, n: i64)
    ensures
        final(out)@ == old(out)@ + signed_decimal(n as int),
{
    if n < 0 {
        push_char(out, '-');
        let magnitude: u64 = if n == i64::MIN {
            0x8000_0000_0000_0000
        } else {
            (-n) as u64
        };
        push_decimal(out, magnitude);
        assert(out@ =~= old(out)@ + signed_decimal(n as int));
    } else {
        push_decimal(out, n as u64);
    }
}

/// How many digits `n` has.
fn digit_count(n: u64) -> (k: u64)
    ensures
        k == decimal(n as nat).len(),
{
    let mut k: u64 = 1;
    let mut rest: u64 = n;
    while rest >= 10
        invariant
            decimal(n as nat).len() == k - 1 + decimal(rest as nat).len(),
            k + rest <= n + 1,
        decreases rest,
    {
        rest = rest / 10;
        k = k + 1;
    }
    k
}

/// Append the decimal notation of `n`, filled up with zeros to `width` places.
pub(crate) fn push_padded(out: &mut String, n: u64, width: u64)
    ensures
        final(out)@ == old(out)@ + padded(n as nat, width as nat),
{
    let have: u64 = digit_count(n);
    let mut i: u64 = have;
    while i < width
        invariant
            have == decimal(n as nat).len(),
            have <= i,
            i <= width || i == have,
            out@ == old(out)@ + zeros((i - have) as nat),
        decreases width - i,
    {
        push_char(out, '0');
        i = i + 1;
        assert(out@ =~= old(out)@ + zeros((i - have) as nat));
    }
    push_decimal(out, n);
    assert(out@ =~= old(out)@ + padded(n as nat, width as nat));
}

/// The number that a run of digits stands for.
pub open spec fn value_of(s: Seq<char>) -> nat
    decreases s.len(),
{
    if s.len() == 0 {
        0
    } else {
        10 * value_of(s.drop_last()) + digit_value(s.last())->0
    }
}

/// `s` is a run of digits.
pub open spec fn all_digits(s: Seq<char>) -> bool {
    forall|i: int| 0 <= i < s.len() ==> digit_value(#[trigger] s[i]) is Some
}

/// `s` without the plus sign in front, if there is one.
pub open spec fn unsigned_part(s: Seq<char>) -> Seq<char> {
    if s.len() > 0 && s[0] == '+' {
        s.skip(1)
    } else {
        s
    }
}

/// The number that `s` denotes, if it denotes one of at most `max`: digits, with
/// or without a plus sign in front.
pub open spec fn number(s: Seq<char>, max: nat) -> Option<nat> {
    let d = unsigned_part(s);
    if d.len() > 0 && all_digits(d) && value_of(d) <= max {
        Some(value_of(d))
    } else {
        None
    }
}

/// A longer run of digits denotes no smaller number.
proof fn lemma_value_grows(s: Seq<char>, n: int)
    requires
        0 <= n <= s.len(),
    ensures
        value_of(s.take(n)) <= value_of(s),
    decreases s.len() - n,
{
    if n < s.len() {
        lemma_value_grows(s, n + 1);
        assert(s.take(n + 1).drop_last() =~= s.take(n));
    } else {
        assert(s.take(n) =~= s);
    }
}

/// The number that `text` denotes, if it denotes one of at most `max`.
pub(crate) fn parse_number(text: &Vec<char>, max: u64) -> (r: Option<u64>)
    ensures
        match r {
            Some(n) => number(text@, max as nat) == Some(n as nat),
            None => number(text@, max as nat) is None,
        },
{
    let from: usize = if text.len() > 0 && text[0] == '+' {
        1
    } else {
        0
    };
    let ghost d = unsigned_part(text@);
    assert(d =~= text@.skip(from as int));
    if from == text.len() {
        return None;
    }
    let mut n: u64 = 0;
    let mut i: usize = from;
    while i < text.len()
        invariant
            from <= i <= text.len(),
            d == text@.skip(from as int),
            d == unsigned_part(text@),
            n == value_of(d.take(i - from)),
            n <= max,
            forall|k: int| 0 <= k < i - from ==> digit_value(#[trigger] d[k]) is Some,
        decreases text.len() - i,
    {
        let c: char = text[i];
        assert(d[i - from] == c);
        if c < '0' || c > '9' {
            assert(digit_value(d[i - from]) is None);
            return None;
        }
        let v: u64 = (c as u32 - '0' as u32) as u64;
        proof {
            lemma_value_grows(d, i - from + 1);
            assert(d.take(i - from + 1).drop_last() =~= d.take(i - from));
        }
        if v > max || n > max / 10 || 10 * n > max - v {
            assert(value_of(d.take(i - from + 1)) > max);
            return None;
        }
        n = 10 * n + v;
        i = i + 1;
    }
    assert(d.take(i - from) =~= d);
    Some(n)
}

/// Append a string.
pub(crate) fn push_str(out: &mut String, s: &str)
    ensures
        final(out)@ == old(out)@ + s@,
{
    out.append(s);
}

/// The decimal notation of `n`.
pub(crate) fn decimal_string(n: u64) -> (r: String)
    ensures
        r@ == decimal(n as nat),
{
    let mut out = String::new();
    push_decimal(&mut out, n);
    assert(out@ =~= decimal(n as nat));
    out
}

/// Whether a string reads `word`.
pub(crate) fn is_word(s: &String, word: &str) -> (r: bool)
    ensures
        r == (s@ == word@),
{
    same_text(&chars_of(s.as_str()), &chars_of(word))
}

/// A list of strings, each as its characters.
pub open spec fn strings(v: Seq<String>) -> Seq<Seq<char>> {
    v.map_values(|s: String| s@)
}

/// The digits of a number denote it.
proof fn lemma_decimal_value(n: nat)
    ensures
        decimal(n).len() > 0,
        all_digits(decimal(n)),
        value_of(decimal(n)) == n,
        decimal(n)[0] != '+',
    decreases n,
{
    if n < 10 {
        let s = decimal(n);
        assert(s.drop_last() =~= Seq::empty());
        assert(value_of(s.drop_last()) == 0);
    } else {
        lemma_decimal_value(n / 10);
        let s = decimal(n);
        assert(s.drop_last() =~= decimal(n / 10));
        assert forall|i: int| 0 <= i < s.len() implies digit_value(#[trigger] s[i]) is Some by {
            if i < s.len() - 1 {
                assert(s[i] == decimal(n / 10)[i]);
            }
        }
    }
}

/// Reading back the decimal notation of a number gives the number.
pub proof fn law_decimal_round_trip(n: nat, max: nat)
    requires
        n <= max,
    ensures
        number(decimal(n), max) == Some(n),
{
    lemma_decimal_value(n);
}

/// How often `c` occurs in `s`.
pub open spec fn occurrences(s: Seq<char>, c: char) -> nat
    decreases s.len(),
{
    if s.len() == 0 {
        0
    } else {
        occurrences(s.drop_last(), c) + if s.last() == c {
            1nat
        } else {
            0
        }
    }
}

/// Some texts with `sep` between them.
pub open spec fn with_between(parts: Seq<Seq<char>>, sep: char) -> Seq<char>
    decreases parts.len(),
{
    if parts.len() == 0 {
        Seq::empty()
    } else if parts.len() == 1 {
        parts[0]
    } else {
        parts[0].push(sep) + with_between(parts.skip(1), sep)
    }
}

proof fn lemma_occurrences_add(a: Seq<char>, b: Seq<char>, c: char)
    ensures
        occurrences(a + b, c) == occurrences(a, c) + occurrences(b, c),
    decreases b.len(),
{
    if b.len() == 0 {
        assert(a + b =~= a);
    } else {
        assert((a + b).drop_last() =~= a + b.drop_last());
        lemma_occurrences_add(a, b.drop_last(), c);
    }
}

proof fn lemma_no_occurrence(s: Seq<char>, c: char)
    requires
        forall|i: int| 0 <= i < s.len() ==> #[trigger] s[i] != c,
    ensures
        occurrences(s, c) == 0,
    decreases s.len(),
{
    if s.len() > 0 {
        assert(s[s.len() - 1] != c);
        lemma_no_occurrence(s.drop_last(), c);
    }
}

/// Splitting loses nothing: the parts with the separator between them are the text
/// again, no part holds the separator, and there is one part more than there are
/// separators.
pub proof fn law_split_parts_make_up_the_text(s: Seq<char>, sep: char)
    ensures
        with_between(split_on(s, sep), sep) == s,
        split_on(s, sep).len() == occurrences(s, sep) + 1,
        forall|i: int, k: int|
            0 <= i < split_on(s, sep).len() && 0 <= k < split_on(s, sep)[i].len()
                ==> #[trigger] split_on(s, sep)[i][k] != sep,
    decreases s.len(),
{
    let i = next_place(s, sep, 0);
    lemma_next_place(s, sep, 0);
    let parts = split_on(s, sep);
    let head = s.take(i);
    lemma_no_occurrence(head, sep);
    if i < s.len() {
        let rest = s.skip(i + 1);
        law_split_parts_make_up_the_text(rest, sep);
        assert(parts.skip(1) =~= split_on(rest, sep));
        assert(s =~= head.push(sep) + rest);
        lemma_occurrences_add(head.push(sep), rest, sep);
        assert(head.push(sep).drop_last() =~= head);
        assert forall|j: int, k: int|
            0 <= j < parts.len() && 0 <= k < parts[j].len() implies #[trigger] parts[j][k]
            != sep by {
            if j == 0 {
                assert(parts[0] == head);
                assert(head[k] == s[k]);
            } else {
                assert(parts[j] == split_on(rest, sep)[j - 1]);
            }
        }
    } else {
        assert(head =~= s);
        assert(parts =~= seq![s]);
    }
}

/// Trimming takes white space off both ends and nothing else: what is left is a piece
/// of the text that neither begins nor ends with white space, and all that was taken
/// off is white.
pub proof fn law_trim_takes_off_white_ends(s: Seq<char>) -> (ends: (int, int))
    ensures
        0 <= ends.0 <= ends.1 <= s.len(),
        trimmed(s) == s.subrange(ends.0, ends.1),
        forall|i: int| 0 <= i < ends.0 ==> is_white(#[trigger] s[i]),
        forall|i: int| ends.1 <= i < s.len() ==> is_white(#[trigger] s[i]),
        ends.0 < ends.1 ==> !is_white(s[ends.0]) && !is_white(s[ends.1 - 1]),
{
    let a = lemma_trim_start(s);
    let front = s.skip(a);
    let n = lemma_trim_end(front);
    let b = a + n;
    assert(front.take(n) =~= s.subrange(a, b));
    assert forall|i: int| b <= i < s.len() implies is_white(#[trigger] s[i]) by {
        assert(front[i - a] == s[i]);
    }
    if a < b {
        assert(front[0] == s[a]);
        assert(front[n - 1] == s[b - 1]);
    }
    (a, b)
}

proof fn lemma_trim_start(s: Seq<char>) -> (a: int)
    ensures
        0 <= a <= s.len(),
        trim_start(s) == s.skip(a),
        forall|i: int| 0 <= i < a ==> is_white(#[trigger] s[i]),
        a < s.len() ==> !is_white(s[a]),
    decreases s.len(),
{
    if s.len() > 0 && is_white(s[0]) {
        let rest = s.skip(1);
        let b = lemma_trim_start(rest);
        assert(rest.skip(b) =~= s.skip(b + 1));
        assert forall|i: int| 0 <= i < b + 1 implies is_white(#[trigger] s[i]) by {
            if i > 0 {
                assert(rest[i - 1] == s[i]);
            }
        }
        if b < rest.len() {
            assert(rest[b] == s[b + 1]);
        }
        b + 1
    } else {
        assert(s.skip(0) =~= s);
        0
    }
}

proof fn lemma_trim_end(s: Seq<char>) -> (n: int)
    ensures
        0 <= n <= s.len(),
        trim_end(s) == s.take(n),
        forall|i: int| n <= i < s.len() ==> is_white(#[trigger] s[i]),
        n > 0 ==> !is_white(s[n - 1]),
    decreases s.len(),
{
    if s.len() > 0 && is_white(s.last()) {
        let front = s.drop_last();
        let n = lemma_trim_end(front);
        assert(front.take(n) =~= s.take(n));
        assert forall|i: int| n <= i < s.len() implies is_white(#[trigger] s[i]) by {
            if i < front.len() {
                assert(front[i] == s[i]);
            }
        }
        n
    } else {
        assert(s.take(s.len() as int) =~= s);
        s.len() as int
    }
}

/// Of the characters up to 127, the blank and those from the tab to the carriage
/// return are white.
pub proof fn law_plain_white_space(c: char)
    requires
        c as u32 <= 127,
    ensures
        is_white(c) <==> c as u32 == 32 || 9 <= c as u32 <= 13,
{
}

/// A number is read digit by digit: one more digit multiplies by ten and adds, as long
/// as the limit is kept.
pub proof fn law_number_grows_by_digits(s: Seq<char>, d: nat, max: nat)
    requires
        d < 10,
        number(s, max) is Some,
    ensures
        number(s.push(digit(d)), max) == if 10 * (number(s, max)->0) + d <= max {
            Some(10 * (number(s, max)->0) + d)
        } else {
            None
        },
{
    let t = s.push(digit(d));
    let u = unsigned_part(s);
    assert(unsigned_part(t) =~= u.push(digit(d)));
    assert(digit_value(digit(d)) == Some(d));
    assert(u.push(digit(d)).drop_last() =~= u);
    assert forall|i: int| 0 <= i < u.push(digit(d)).len() implies digit_value(
        #[trigger] u.push(digit(d))[i],
    ) is Some by {
        if i < u.len() {
            assert(u.push(digit(d))[i] == u[i]);
        }
    }
}

/// Only digits make a number, with at most a plus sign in front; a single digit is its
/// value, and a plus sign changes nothing.
pub proof fn law_only_digits_make_a_number(s: Seq<char>, max: nat)
    ensures
        s.len() == 0 ==> number(s, max) is None,
        s.len() == 1 && s[0] == '+' ==> number(s, max) is None,
        (exists|i: int|
            0 <= i < s.len() && !('0' <= #[trigger] s[i] <= '9') && !(i == 0 && s[i] == '+'))
            ==> number(s, max) is None,
        s.len() > 0 && s[0] != '+' ==> number(seq!['+'] + s, max) == number(s, max),
        number(s, max) is Some ==> number(s, max)->0 <= max,
        forall|d: nat| d < 10 && d <= max ==> #[trigger] number(seq![digit(d)], max) == Some(d),
{
    if exists|i: int|
        0 <= i < s.len() && !('0' <= #[trigger] s[i] <= '9') && !(i == 0 && s[i] == '+') {
        let i = choose|i: int|
            0 <= i < s.len() && !('0' <= #[trigger] s[i] <= '9') && !(i == 0 && s[i] == '+');
        let u = unsigned_part(s);
        if s[0] == '+' {
            assert(u[i - 1] == s[i]);
        } else {
            assert(u[i] == s[i]);
        }
    }
    if s.len() > 0 && s[0] != '+' {
        assert(unsigned_part(seq!['+'] + s) =~= s);
    }
    assert forall|d: nat| d < 10 && d <= max implies #[trigger] number(seq![digit(d)], max) == Some(
        d,
    ) by {
        let one = seq![digit(d)];
        assert(one.drop_last() =~= Seq::empty());
        assert(value_of(one.drop_last()) == 0);
        assert(digit_value(digit(d)) == Some(d));
        assert(all_digits(one));
    }
}

proof fn lemma_zeros_value(n: nat, d: Seq<char>)
    requires
        all_digits(d),
    ensures
        all_digits(zeros(n) + d),
        value_of(zeros(n) + d) == value_of(d),
    decreases d.len(),
{
    let whole = zeros(n) + d;
    assert forall|i: int| 0 <= i < whole.len() implies digit_value(#[trigger] whole[i]) is Some by {
        if i >= n {
            assert(whole[i] == d[i - n]);
        }
    }
    if d.len() > 0 {
        let front = d.drop_last();
        assert forall|i: int| 0 <= i < front.len() implies digit_value(
            #[trigger] front[i],
        ) is Some by {
            assert(front[i] == d[i]);
        }
        lemma_zeros_value(n, front);
        assert(whole.drop_last() =~= zeros(n) + front);
    } else {
        assert(whole =~= zeros(n));
        lemma_only_zeros(n);
    }
}

proof fn lemma_only_zeros(n: nat)
    ensures
        value_of(zeros(n)) == 0,
    decreases n,
{
    if n > 0 {
        lemma_only_zeros((n - 1) as nat);
        assert(zeros(n).drop_last() =~= zeros((n - 1) as nat));
    }
}

/// A padded number has at least the width asked for, and reads as the number.
pub proof fn law_padded_number_reads_back(n: nat, width: nat, max: nat)
    requires
        n <= max,
    ensures
        padded(n, width).len() >= width,
        decimal(n).len() <= width ==> padded(n, width).len() == width,
        number(padded(n, width), max) == Some(n),
{
    law_decimal_round_trip(n, max);
    let d = decimal(n);
    assert(unsigned_part(d) == d) by {
        lemma_decimal_has_digits(n);
    }
    lemma_decimal_has_digits(n);
    if d.len() < width {
        let z = (width - d.len()) as nat;
        lemma_zeros_value(z, d);
        let whole = zeros(z) + d;
        assert(whole[0] == '0');
        assert(unsigned_part(whole) == whole);
    }
}

proof fn lemma_decimal_has_digits(n: nat)
    ensures
        decimal(n).len() > 0,
        all_digits(decimal(n)),
        decimal(n)[0] != '+',
    decreases n,
{
    if n >= 10 {
        lemma_decimal_has_digits(n / 10);
        let front = decimal(n / 10);
        assert forall|i: int| 0 <= i < decimal(n).len() implies digit_value(
            #[trigger] decimal(n)[i],
        ) is Some by {
            if i < front.len() {
                assert(decimal(n)[i] == front[i]);
            }
        }
        assert(decimal(n)[0] == front[0]);
    } else {
        assert(digit_value(decimal(n)[0]) is Some);
    }
}

/// Decimal notation has no leading zero.
pub proof fn law_decimal_has_no_leading_zero(n: nat)
    ensures
        n > 0 ==> decimal(n)[0] != '0',
        decimal(n).len() > 0,
        n < 10 <==> decimal(n).len() == 1,
    decreases n,
{
    if n >= 10 {
        law_decimal_has_no_leading_zero(n / 10);
        assert(decimal(n)[0] == decimal(n / 10)[0]);
    }
}

proof fn lemma_place_found(s: Seq<char>, c: char, i: int, at: int)
    requires
        0 <= at <= i <= s.len(),
        forall|k: int| at <= k < i ==> #[trigger] s[k] != c,
        i < s.len() ==> s[i] == c,
    ensures
        next_place(s, c, at) == i,
    decreases i - at,
{
    if at < i {
        assert(s[at] != c);
        lemma_place_found(s, c, i, at + 1);
    }
}

/// The first place of a character is where it stands after a text without it.
pub proof fn law_first_place(a: Seq<char>, c: char, b: Seq<char>)
    requires
        forall|i: int| 0 <= i < a.len() ==> #[trigger] a[i] != c,
    ensures
        next_place(a, c, 0) == a.len(),
        next_place(a.push(c) + b, c, 0) == a.len(),
{
    let whole = a.push(c) + b;
    assert forall|k: int| 0 <= k < a.len() implies #[trigger] whole[k] != c by {
        assert(whole[k] == a[k]);
    }
    lemma_place_found(a, c, a.len() as int, 0);
    lemma_place_found(whole, c, a.len() as int, 0);
}

/// A text is split at every separator: the parts of two texts with a separator between
/// them are the parts of the one and then those of the other.
pub proof fn law_split_goes_on_behind_a_separator(a: Seq<char>, sep: char, b: Seq<char>)
    ensures
        split_on(a.push(sep) + b, sep) == split_on(a, sep) + split_on(b, sep),
    decreases a.len(),
{
    let whole = a.push(sep) + b;
    let i = next_place(a, sep, 0);
    lemma_next_place(a, sep, 0);
    assert forall|k: int| 0 <= k < i implies #[trigger] whole[k] != sep by {
        assert(whole[k] == a[k]);
    }
    lemma_place_found(whole, sep, i, 0);
    assert(whole.take(i) =~= a.take(i));
    if i < a.len() {
        assert(whole.skip(i + 1) =~= a.skip(i + 1).push(sep) + b);
        law_split_goes_on_behind_a_separator(a.skip(i + 1), sep, b);
        assert(split_on(whole, sep) =~= split_on(a, sep) + split_on(b, sep));
    } else {
        assert(a.take(i) =~= a);
        assert(whole.skip(i + 1) =~= b);
        assert(split_on(whole, sep) =~= split_on(a, sep) + split_on(b, sep));
    }
}

/// A text is read line by line: a line ends with a line feed, or with a carriage
/// return and a line feed, which are taken off. A last line without an end counts.
pub proof fn law_lines_end_with_a_line_feed(line: Seq<char>, rest: Seq<char>)
    requires
        forall|i: int| 0 <= i < line.len() ==> #[trigger] line[i] != '\n',
    ensures
        lines_of(Seq::empty()) == Seq::<Seq<char>>::empty(),
        line.len() > 0 ==> lines_of(line) == seq![line],
        line.len() == 0 || line.last() != '\r' ==> lines_of(line.push('\n') + rest) == seq![line]
            + lines_of(rest),
        lines_of(line.push('\r').push('\n') + rest) == seq![line] + lines_of(rest),
{
    law_first_place(line, '\n', rest);
    let whole = line.push('\n') + rest;
    assert(whole.take(line.len() as int) =~= line);
    assert(whole.skip(line.len() as int + 1) =~= rest);
    let with_cr = line.push('\r');
    law_first_place(with_cr, '\n', rest);
    let other = with_cr.push('\n') + rest;
    assert(other.take(with_cr.len() as int) =~= with_cr);
    assert(other.skip(with_cr.len() as int + 1) =~= rest);
    assert(with_cr.drop_last() =~= line);
    assert(lines_of(Seq::empty()) =~= Seq::empty());
}

/// Digits are neither white space nor any other mark, so a text of digits is its own
/// trimmed text.
pub proof fn law_decimal_is_digits_only(n: nat)
    ensures
        decimal(n).len() > 0,
        forall|i: int| 0 <= i < decimal(n).len() ==> '0' <= #[trigger] decimal(n)[i] <= '9',
{
    lemma_decimal_has_digits(n);
    assert forall|i: int| 0 <= i < decimal(n).len() implies '0' <= #[trigger] decimal(n)[i]
        <= '9' by {
        assert(digit_value(decimal(n)[i]) is Some);
    }
}

/// A text that neither begins nor ends with white space is trimmed already.
pub proof fn law_trim_keeps_what_has_no_white_ends(s: Seq<char>)
    requires
        s.len() > 0 ==> !is_white(s[0]) && !is_white(s.last()),
    ensures
        trimmed(s) == s,
{
}

} // verus!
