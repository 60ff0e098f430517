//! Character-level helpers: decimal numerals, whitespace, padding and
//! truncation, all stated over `Seq<char>`.
use vstd::prelude::*;

verus! {

/// The characters of `s`, one per element.
pub fn chars_of(s: &str) -> (r: Vec<char>)
    ensures
        r@ == s@,
{
    let mut out: Vec<char> = Vec::new();
    for c in it: s.chars()
        invariant
            out@ == it.seq().take(it.index() as int),
            it.seq() == s@,
    {
        out.push(c);
    }
    out
}

/// Appends one character to a `String` (std's `String::push`).
#[verifier::external_body]
fn push_char(s: &mut String, c: char)
    ensures
        final(s)@ == old(s)@.push(c),
{
    s.push(c);
}

/// Builds a `String` holding exactly the characters of `cs`.
pub fn string_of(cs: &Vec<char>) -> (r: String)
    ensures
        r@ == cs@,
{
    let mut out = String::new();
    let n = cs.len();
    for i in 0..n
        invariant
            n == cs@.len(),
            out@ == cs@.take(i as int),
    {
        push_char(&mut out, cs[i]);
        assert(cs@.take(i + 1) == cs@.take(i as int).push(cs@[i as int]));
    }
    assert(cs@.take(n as int) == cs@);
    out
}

/// Appends the characters of `cs` to `out`.
pub fn extend_chars(out: &mut Vec<char>, cs: &Vec<char>)
    ensures
        final(out)@ == old(out)@ + cs@,
{
    let n = cs.len();
    for i in 0..n
        invariant
            n == cs@.len(),
            out@ == old(out)@ + cs@.take(i as int),
    {
        out.push(cs[i]);
        assert(cs@.take(i + 1) == cs@.take(i as int).push(cs@[i as int]));
    }
    assert(cs@.take(n as int) == cs@);
}

// ------------------------------------------------------------------
// Decimal numerals
// ------------------------------------------------------------------

/// Whether `c` is one of the ASCII digits `0`..`9`.
pub open spec fn is_digit(c: char) -> bool {
    '0' <= c && c <= '9'
}

/// The value of the ASCII digit `c`.
pub open spec fn digit_value(c: char) -> nat {
    (c as u32 - '0' as u32) as nat
}

/// The ASCII digit for `d < 10`.
pub open spec fn digit_char(d: nat) -> char {
    ((d + '0' as u32) as u32) as char
}

/// The decimal numeral of `n`, most significant digit first, without
/// leading zeros (`0` is written as a single `0`).
pub open spec fn decimal(n: nat) -> Seq<char>
    decreases n,
{
    if n < 10 {
        seq![digit_char(n)]
    } else {
        decimal(n / 10).push(digit_char(n % 10))
    }
}

/// The value of a run of ASCII digits, read in base ten.
pub open spec fn digits_value(s: Seq<char>) -> nat
    decreases s.len(),
{
    if s.len() == 0 {
        0
    } else {
        digits_value(s.drop_last()) * 10 + digit_value(s.last())
    }
}

/// Whether every character of `s` is an ASCII digit.
pub open spec fn all_digits(s: Seq<char>) -> bool {
    forall|i: int| 0 <= i < s.len() ==> is_digit(#[trigger] s[i])
}

/// What std's `from_str` for an unsigned integer reads from `s`, before the
/// bound of the target type is applied: an optional `+`, then one or more
/// ASCII digits and nothing else.
pub open spec fn unsigned_numeral(s: Seq<char>) -> Option<nat> {
    let body = if s.len() > 0 && s[0] == '+' { s.drop_first() } else { s };
    if body.len() > 0 && all_digits(body) {
        Some(digits_value(body))
    } else {
        None
    }
}

/// The value `s.parse::<T>()` gives for an unsigned type whose largest value
/// is `max`: `None` where std reports an error.
pub open spec fn parse_unsigned(s: Seq<char>, max: nat) -> Option<nat> {
    match unsigned_numeral(s) {
        Some(v) => if v <= max { Some(v) } else { None },
        None => None,
    }
}

proof fn lemma_digits_value_push(s: Seq<char>, c: char)
    ensures
        digits_value(s.push(c)) == digits_value(s) * 10 + digit_value(c),
{
    assert(s.push(c).drop_last() == s);
}

/// Parses `s` as std's `str::parse` does for an unsigned type whose largest
/// value is `max`.
#[verifier::rlimit(40)]
fn parse_bounded(s: &str, max: u64) -> (r: Option<u64>)
    requires
        max >= 9,
    ensures
        r == match parse_unsigned(s@, max as nat) {
            Some(v) => Some(v as u64),
            None => None::<u64>,
        },
{
    let cs = chars_of(s);
    let n = cs.len();
    let start: usize = if n > 0 && cs[0] == '+' { 1 } else { 0 };
    let ghost body = if s@.len() > 0 && s@[0] == '+' { s@.drop_first() } else { s@ };
    assert(body == cs@.subrange(start as int, n as int));
    if start >= n {
        return None;
    }
    let mut acc: u64 = 0;
    let mut overflow = false;
    let mut i = start;
    while i < n
        invariant
            start <= i <= n,
            n == cs@.len(),
            cs@ == s@,
            body == (if s@.len() > 0 && s@[0] == '+' { s@.drop_first() } else { s@ }),
            start < n,
            body == cs@.subrange(start as int, n as int),
            all_digits(cs@.subrange(start as int, i as int)),
            !overflow ==> acc as nat == digits_value(cs@.subrange(start as int, i as int)),
            !overflow ==> acc <= max,
            overflow ==> digits_value(cs@.subrange(start as int, i as int)) > max,
            max >= 9,
        decreases n - i,
    {
        let c = cs[i];
        if !('0' <= c && c <= '9') {
            assert(body[i - start] == c);
            assert(!is_digit(body[i - start]));
            assert(!all_digits(body));
            assert(unsigned_numeral(s@) is None);
            return None;
        }
        let d = (c as u32 - '0' as u32) as u64;
        let ghost prev = cs@.subrange(start as int, i as int);
        assert(cs@.subrange(start as int, i + 1) == prev.push(c));
        proof {
            lemma_digits_value_push(prev, c);
        }
        if !overflow {
            if acc > (max - d) / 10 {
                overflow = true;
                assert(acc * 10 + d > max) by (nonlinear_arith)
                    requires
                        acc > (max - d) / 10,
                        d < 10,
                        d <= max,
                ;
            } else {
                assert(acc * 10 + d <= max) by (nonlinear_arith)
                    requires
                        acc <= (max - d) / 10,
                        d < 10,
                ;
                acc = acc * 10 + d;
            }
        } else {
            assert(digits_value(prev) * 10 + digit_value(c) > max) by (nonlinear_arith)
                requires
                    digits_value(prev) > max,
            ;
        }
        i = i + 1;
    }
    assert(cs@.subrange(start as int, n as int) == body);
    if overflow {
        None
    } else {
        Some(acc)
    }
}

/// `s.parse::<usize>()`, with `None` for every error.
pub fn parse_usize(s: &str) -> (r: Option<usize>)
    ensures
        r == match parse_unsigned(s@, usize::MAX as nat) {
            Some(v) => Some(v as usize),
            None => None::<usize>,
        },
{
    match parse_bounded(s, usize::MAX as u64) {
        Some(v) => Some(v as usize),
        None => None,
    }
}

/// `s.parse::<u16>()`, with `None` for every error.
pub fn parse_u16(s: &str) -> (r: Option<u16>)
    ensures
        r == match parse_unsigned(s@, u16::MAX as nat) {
            Some(v) => Some(v as u16),
            None => None::<u16>,
        },
{
    match parse_bounded(s, u16::MAX as u64) {
        Some(v) => Some(v as u16),
        None => None,
    }
}

} // verus!

verus! {

/// Whether `a` and `b` hold the same characters.
pub fn same_text(a: &str, b: &str) -> (r: bool)
    ensures
        r == (a@ == b@),
{
    let x = chars_of(a);
    let y = chars_of(b);
    if x.len() != y.len() {
        return false;
    }
    let n = x.len();
    for i in 0..n
        invariant
            n == x@.len(),
            n == y@.len(),
            x@ == a@,
            y@ == b@,
            forall|j: int| 0 <= j < i ==> x@[j] == y@[j],
    {
        if x[i] != y[i] {
            assert(x@[i as int] != y@[i as int]);
            return false;
        }
    }
    assert(x@ == y@);
    true
}

} // verus!

verus! {

/// `n` spaces.
pub open spec fn spaces(n: nat) -> Seq<char> {
    Seq::new(n, |i: int| ' ')
}

/// `s` right-aligned in a field of `width` characters, as `{:>width}`
/// writes it: spaces in front when `s` is shorter, `s` unchanged otherwise.
pub open spec fn pad_left(s: Seq<char>, width: nat) -> Seq<char> {
    if s.len() < width {
        spaces((width - s.len()) as nat) + s
    } else {
        s
    }
}

/// `s` left-aligned in a field of `width` characters, as `{:<width}`
/// writes it: spaces after it when `s` is shorter, `s` unchanged otherwise.
pub open spec fn pad_right(s: Seq<char>, width: nat) -> Seq<char> {
    if s.len() < width {
        s + spaces((width - s.len()) as nat)
    } else {
        s
    }
}

fn push_spaces(out: &mut Vec<char>, n: usize)
    ensures
        final(out)@ == old(out)@ + spaces(n as nat),
{
    for i in 0..n
        invariant
            out@ == old(out)@ + spaces(i as nat),
    {
        out.push(' ');
        assert(spaces((i + 1) as nat) == spaces(i as nat).push(' '));
    }
}

/// The characters of `s` right-aligned in `width` columns.
pub fn pad_left_chars(s: &Vec<char>, width: usize) -> (r: Vec<char>)
    ensures
        r@ == pad_left(s@, width as nat),
{
    let mut out: Vec<char> = Vec::new();
    if s.len() < width {
        push_spaces(&mut out, width - s.len());
    }
    extend_chars(&mut out, s);
    out
}

/// The characters of `s` left-aligned in `width` columns.
pub fn pad_right_chars(s: &Vec<char>, width: usize) -> (r: Vec<char>)
    ensures
        r@ == pad_right(s@, width as nat),
{
    let mut out: Vec<char> = Vec::new();
    extend_chars(&mut out, s);
    if s.len() < width {
        push_spaces(&mut out, width - s.len());
    }
    out
}

/// The digits of `n` in base ten.
pub fn decimal_chars(n: u128) -> (r: Vec<char>)
    ensures
        r@ == decimal(n as nat),
{
    let mut out: Vec<char> = Vec::new();
    let mut m = n;
    while m >= 10
        invariant
            decimal(n as nat) == decimal(m as nat) + out@,
        decreases m,
    {
        let c = (((m % 10) as u8) + 48u8) as char;
        assert(c == digit_char((m % 10) as nat));
        out.insert(0, c);
        assert(decimal(m as nat) == decimal((m / 10) as nat).push(c));
        m = m / 10;
    }
    let c = ((m as u8) + 48u8) as char;
    out.insert(0, c);
    assert(decimal(m as nat) == seq![c]);
    out
}

/// What `s` looks like cut to at most `n` characters: unchanged when it
/// fits, otherwise its first `n - 1` characters (none when `n` is 0)
/// followed by `…`.
pub open spec fn truncated(s: Seq<char>, n: nat) -> Seq<char> {
    if s.len() <= n {
        s
    } else {
        s.take(if n >= 1 { n - 1 } else { 0 }).push('…')
    }
}

/// Cuts `s` to at most `n` characters, marking a cut with `…`.
pub fn truncate(s: &str, n: usize) -> (r: String)
    ensures
        r@ == truncated(s@, n as nat),
{
    let cs = chars_of(s);
    if cs.len() <= n {
        return string_of(&cs);
    }
    let keep = if n >= 1 { n - 1 } else { 0 };
    let mut out: Vec<char> = Vec::new();
    for i in 0..keep
        invariant
            keep < cs@.len(),
            out@ == cs@.take(i as int),
    {
        out.push(cs[i]);
        assert(cs@.take(i + 1) == cs@.take(i as int).push(cs@[i as int]));
    }
    out.push('…');
    string_of(&out)
}

} // verus!

verus! {

// ------------------------------------------------------------------
// Searching, lines and whitespace
// ------------------------------------------------------------------

/// Whether `i` is the first position of `c` in `s`.
pub open spec fn is_first_char(s: Seq<char>, c: char, i: int) -> bool {
    &&& 0 <= i < s.len()
    &&& s[i] == c
    &&& forall|j: int| 0 <= j < i ==> #[trigger] s[j] != c
}

/// The first position of `c` in `s`, if it occurs.
pub open spec fn first_index_of(s: Seq<char>, c: char) -> Option<int> {
    if exists|i: int| is_first_char(s, c, i) {
        Some(choose|i: int| is_first_char(s, c, i))
    } else {
        None
    }
}

pub proof fn lemma_first_char_unique(s: Seq<char>, c: char, i: int)
    requires
        is_first_char(s, c, i),
    ensures
        first_index_of(s, c) == Some(i),
{
    let k = choose|k: int| is_first_char(s, c, k);
    if k < i {
        assert(s[k] != c);
    } else if k > i {
        assert(s[i] != c);
    }
}

pub proof fn lemma_first_char_none(s: Seq<char>, c: char)
    requires
        forall|j: int| 0 <= j < s.len() ==> #[trigger] s[j] != c,
    ensures
        first_index_of(s, c) is None,
{
}

/// The first position of `c` in `cs`.
pub fn find_char(cs: &Vec<char>, c: char) -> (r: Option<usize>)
    ensures
        match r {
            Some(i) => first_index_of(cs@, c) == Some(i as int) && is_first_char(cs@, c, i as int),
            None => first_index_of(cs@, c) is None,
        },
{
    let n = cs.len();
    for i in 0..n
        invariant
            n == cs@.len(),
            forall|j: int| 0 <= j < i ==> #[trigger] cs@[j] != c,
    {
        if cs[i] == c {
            proof {
                lemma_first_char_unique(cs@, c, i as int);
            }
            return Some(i);
        }
    }
    None
}

/// `s` without one `\r` at its end.
pub open spec fn strip_cr(s: Seq<char>) -> Seq<char> {
    if s.len() > 0 && s.last() == '\r' {
        s.drop_last()
    } else {
        s
    }
}

/// The lines of `s` as std's `str::lines` yields them: split at each `\n`,
/// a `\r` right before the `\n` dropped, and no empty line after a final
/// `\n`.
pub open spec fn lines(s: Seq<char>) -> Seq<Seq<char>>
    decreases s.len(),
{
    if s.len() == 0 {
        Seq::empty()
    } else if exists|i: int| is_first_char(s, '\n', i) {
        let i = choose|i: int| is_first_char(s, '\n', i);
        seq![strip_cr(s.take(i))] + lines(s.skip(i + 1))
    } else {
        seq![s]
    }
}

/// The character sequences held by a list of character vectors.
pub open spec fn texts(v: Seq<Vec<char>>) -> Seq<Seq<char>> {
    v.map_values(|x: Vec<char>| x@)
}

/// The lines of `cs` (see [`lines`]).
pub fn split_lines(cs: &Vec<char>) -> (r: Vec<Vec<char>>)
    ensures
        texts(r@) == lines(cs@),
{
    let n = cs.len();
    let mut out: Vec<Vec<char>> = Vec::new();
    let mut cur: Vec<char> = Vec::new();
    let mut start: usize = 0;
    assert(cs@.skip(0) == cs@);
    assert(texts(out@) == Seq::<Seq<char>>::empty());
    for i in 0..n
        invariant
            n == cs@.len(),
            start <= i,
            cur@ == cs@.subrange(start as int, i as int),
            forall|j: int| start <= j < i ==> #[trigger] cs@[j] != '\n',
            lines(cs@) == texts(out@) + lines(cs@.skip(start as int)),
    {
        let ghost rest = cs@.skip(start as int);
        if cs[i] == '\n' {
            proof {
                let k = (i - start) as int;
                assert(is_first_char(rest, '\n', k)) by {
                    assert forall|j: int| 0 <= j < k implies #[trigger] rest[j] != '\n' by {
                        assert(rest[j] == cs@[start + j]);
                    }
                }
                lemma_first_char_unique(rest, '\n', k);
                assert(rest.take(k) == cur@);
                assert(rest.skip(k + 1) == cs@.skip(i + 1));
            }
            let mut line = Vec::new();
            std::mem::swap(&mut line, &mut cur);
            if line.len() > 0 && line[line.len() - 1] == '\r' {
                line.pop();
            }
            let ghost before = out@;
            out.push(line);
            proof {
                assert(texts(out@) == texts(before).push(strip_cr(cs@.subrange(start as int, i as int))));
                assert(lines(rest) == seq![strip_cr(cs@.subrange(start as int, i as int))] + lines(
                    cs@.skip(i + 1),
                ));
                assert(texts(before) + lines(rest) == texts(out@) + lines(cs@.skip(i + 1)));
            }
            start = i + 1;
        } else {
            cur.push(cs[i]);
            assert(cs@.subrange(start as int, i + 1) == cs@.subrange(start as int, i as int).push(
                cs@[i as int],
            ));
        }
    }
    let ghost rest = cs@.skip(start as int);
    assert(rest == cur@);
    if cur.len() > 0 {
        proof {
            lemma_first_char_none(rest, '\n');
            assert(!exists|i: int| is_first_char(rest, '\n', i));
        }
        let ghost before = out@;
        out.push(cur);
        assert(texts(out@) == texts(before).push(rest));
        assert(texts(before) + seq![rest] == texts(before).push(rest));
    } else {
        assert(texts(out@) + lines(rest) == texts(out@));
    }
    out
}

/// Whether `c` has the Unicode `White_Space` property, which is what
/// `char::is_whitespace` and `str::trim` go by.
pub open spec fn is_space(c: char) -> bool {
    let u = c as u32;
    (0x9 <= u && u <= 0xD) || u == 0x20 || u == 0x85 || u == 0xA0 || u == 0x1680 || (0x2000 <= u
        && u <= 0x200A) || u == 0x2028 || u == 0x2029 || u == 0x202F || u == 0x205F || u == 0x3000
}

/// Whether `c` is white space (see [`is_space`]).
pub fn is_whitespace(c: char) -> (r: bool)
    ensures
        r == is_space(c),
{
    let u = c as u32;
    (0x9 <= u && u <= 0xD) || u == 0x20 || u == 0x85 || u == 0xA0 || u == 0x1680 || (0x2000 <= u
        && u <= 0x200A) || u == 0x2028 || u == 0x2029 || u == 0x202F || u == 0x205F || u == 0x3000
}

/// `s` without its leading white space.
pub open spec fn trim_start(s: Seq<char>) -> Seq<char>
    decreases s.len(),
{
    if s.len() > 0 && is_space(s[0]) {
        trim_start(s.drop_first())
    } else {
        s
    }
}

/// `s` without its trailing white space.
pub open spec fn trim_end(s: Seq<char>) -> Seq<char>
    decreases s.len(),
{
    if s.len() > 0 && is_space(s.last()) {
        trim_end(s.drop_last())
    } else {
        s
    }
}

/// `s` without leading and trailing white space, as `str::trim` gives it.
pub open spec fn trim(s: Seq<char>) -> Seq<char> {
    trim_end(trim_start(s))
}

/// The characters of `cs` from `lo` up to `hi`.
pub fn slice_chars(cs: &Vec<char>, lo: usize, hi: usize) -> (r: Vec<char>)
    requires
        lo <= hi <= cs@.len(),
    ensures
        r@ == cs@.subrange(lo as int, hi as int),
{
    let mut out: Vec<char> = Vec::new();
    for i in lo..hi
        invariant
            hi <= cs@.len(),
            out@ == cs@.subrange(lo as int, i as int),
    {
        out.push(cs[i]);
        assert(cs@.subrange(lo as int, i + 1) == cs@.subrange(lo as int, i as int).push(
            cs@[i as int],
        ));
    }
    out
}

/// `cs` without leading and trailing white space (see [`trim`]).
pub fn trim_chars(cs: &Vec<char>) -> (r: Vec<char>)
    ensures
        r@ == trim(cs@),
{
    let n = cs.len();
    let mut lo: usize = 0;
    assert(cs@.skip(0) == cs@);
    while lo < n && is_whitespace(cs[lo])
        invariant
            lo <= n,
            n == cs@.len(),
            trim_start(cs@) == trim_start(cs@.skip(lo as int)),
        decreases n - lo,
    {
        assert(cs@.skip(lo as int).drop_first() == cs@.skip(lo + 1));
        lo = lo + 1;
    }
    assert(trim_start(cs@) == cs@.subrange(lo as int, n as int)) by {
        assert(cs@.skip(lo as int) == cs@.subrange(lo as int, n as int));
    }
    let mut hi: usize = n;
    while hi > lo && is_whitespace(cs[hi - 1])
        invariant
            lo <= hi <= n,
            n == cs@.len(),
            trim(cs@) == trim_end(cs@.subrange(lo as int, hi as int)),
        decreases hi,
    {
        assert(cs@.subrange(lo as int, hi as int).drop_last() == cs@.subrange(lo as int, hi - 1));
        hi = hi - 1;
    }
    slice_chars(cs, lo, hi)
}

} // verus!

verus! {

/// What `String::from_utf8_lossy` makes of the bytes `b`.
pub uninterp spec fn lossy_text(b: Seq<u8>) -> Seq<char>;

/// std's `String::from_utf8_lossy`: the text of `b`, with each invalid
/// sequence replaced by U+FFFD. The contract names the result and states
/// what std's documentation gives: valid UTF-8 is decoded as it stands.
#[verifier::external_body]
pub(crate) fn utf8_lossy(b: &[u8]) -> (r: String)
    ensures
        r@ == lossy_text(b@),
        vstd::utf8::valid_utf8(b@) ==> r@ == vstd::utf8::decode_utf8(b@),
{
    String::from_utf8_lossy(b).into_owned()
}

} // verus!

verus! {

/// The text of a program's output `bytes`, invalid UTF-8 replaced (see
/// [`lossy_text`]).
pub fn decode_output(bytes: &[u8]) -> (r: String)
    ensures
        r@ == lossy_text(bytes@),
        vstd::utf8::valid_utf8(bytes@) ==> r@ == vstd::utf8::decode_utf8(bytes@),
{
    utf8_lossy(bytes)
}

/// Whether `s` holds an escape character (`\x1b`), which marks text
/// carrying ANSI colour codes.
pub fn has_ansi_escape(s: &str) -> (r: bool)
    ensures
        r == s@.contains('\x1b'),
{
    let cs = chars_of(s);
    match find_char(&cs, '\x1b') {
        Some(i) => {
            assert(cs@[i as int] == '\x1b');
            true
        },
        None => {
            assert(!exists|i: int| is_first_char(cs@, '\x1b', i));
            assert forall|j: int| 0 <= j < cs@.len() implies cs@[j] != '\x1b' by {
                if cs@[j] == '\x1b' {
                    if exists|k: int| 0 <= k < j && cs@[k] == '\x1b' {
                        let k = choose|k: int| 0 <= k < j && cs@[k] == '\x1b';
                        lemma_first_occurrence(cs@, '\x1b', k);
                    } else {
                        assert(is_first_char(cs@, '\x1b', j));
                    }
                }
            }
            false
        },
    }
}

proof fn lemma_first_occurrence(s: Seq<char>, c: char, i: int)
    requires
        0 <= i < s.len(),
        s[i] == c,
    ensures
        exists|k: int| is_first_char(s, c, k),
    decreases i,
{
    if exists|k: int| 0 <= k < i && s[k] == c {
        let k = choose|k: int| 0 <= k < i && s[k] == c;
        lemma_first_occurrence(s, c, k);
    } else {
        assert(is_first_char(s, c, i));
    }
}

} // verus!

verus! {

/// A cut text fits its column: for a width of at least one character, the
/// result of [`truncated`] is never longer than the width, and it begins
/// with the text itself or with all but the last kept character of it.
pub proof fn law_truncated_fits(s: Seq<char>, n: nat)
    requires
        n >= 1,
    ensures
        truncated(s, n).len() <= n,
        s.len() <= n ==> truncated(s, n) == s,
        s.len() > n ==> truncated(s, n) == s.take(n - 1).push('…'),
{
}

} // verus!

verus! {

proof fn lemma_digit_round_trip(d: nat)
    requires
        d < 10,
    ensures
        is_digit(digit_char(d)),
        digit_value(digit_char(d)) == d,
{
    let u: u32 = (d + '0' as u32) as u32;
    assert(48 <= u <= 57);
    assert((u as char) as u32 == u);
}

/// Reading back what [`decimal`] writes gives the number: the numeral of
/// `n` is all digits, and its value in base ten is `n`. So every number
/// written into a request head, a title or a label reads as that number.
pub proof fn law_decimal_reads_back(n: nat)
    ensures
        decimal(n).len() > 0,
        all_digits(decimal(n)),
        digits_value(decimal(n)) == n,
    decreases n,
{
    lemma_digit_round_trip(n % 10);
    if n < 10 {
        assert(decimal(n) == seq![digit_char(n)]);
        lemma_digits_value_push(Seq::<char>::empty(), digit_char(n));
        assert(Seq::<char>::empty().push(digit_char(n)) == seq![digit_char(n)]);
        assert(n % 10 == n);
    } else {
        law_decimal_reads_back(n / 10);
        lemma_digits_value_push(decimal(n / 10), digit_char(n % 10));
        let s = decimal(n);
        assert forall|i: int| 0 <= i < s.len() implies is_digit(#[trigger] s[i]) by {
            if i < s.len() - 1 {
                assert(s[i] == decimal(n / 10)[i]);
            }
        }
    }
}

/// A number written by [`decimal`] parses back to itself, as std's
/// `from_str` reads it, whenever it fits the target type.
pub proof fn law_decimal_parses_back(n: nat, max: nat)
    requires
        n <= max,
    ensures
        parse_unsigned(decimal(n), max) == Some(n),
{
    law_decimal_reads_back(n);
    let s = decimal(n);
    assert(s[0] != '+') by {
        assert(is_digit(s[0]));
    }
}

proof fn lemma_trim_start_shape(s: Seq<char>) -> (a: int)
    ensures
        0 <= a <= s.len(),
        trim_start(s) == s.skip(a),
        forall|j: int| 0 <= j < a ==> is_space(#[trigger] s[j]),
        a < s.len() ==> !is_space(s[a]),
    decreases s.len(),
{
    if s.len() > 0 && is_space(s[0]) {
        let a = lemma_trim_start_shape(s.drop_first());
        assert(s.drop_first().skip(a) == s.skip(a + 1));
        assert forall|j: int| 0 <= j < a + 1 implies is_space(#[trigger] s[j]) by {
            if j > 0 {
                assert(s[j] == s.drop_first()[j - 1]);
            }
        }
        a + 1
    } else {
        assert(s.skip(0) == s);
        0
    }
}

proof fn lemma_trim_end_shape(s: Seq<char>) -> (b: int)
    ensures
        0 <= b <= s.len(),
        trim_end(s) == s.take(b),
        forall|j: int| b <= j < s.len() ==> is_space(#[trigger] s[j]),
        b > 0 ==> !is_space(s[b - 1]),
    decreases s.len(),
{
    if s.len() > 0 && is_space(s.last()) {
        let b = lemma_trim_end_shape(s.drop_last());
        assert(s.drop_last().take(b) == s.take(b));
        assert forall|j: int| b <= j < s.len() implies is_space(#[trigger] s[j]) by {
            if j < s.len() - 1 {
                assert(s[j] == s.drop_last()[j]);
            }
        }
        b
    } else {
        assert(s.take(s.len() as int) == s);
        s.len() as int
    }
}

/// What [`trim`] keeps of `s`: the stretch of `s` from position `a` up to
/// `b`, where everything before `a` and from `b` on is white space and the
/// stretch neither starts nor ends with white space.
pub proof fn law_trim_keeps_inner_text(s: Seq<char>) -> (r: (int, int))
    ensures
        0 <= r.0 <= r.1 <= s.len(),
        trim(s) == s.subrange(r.0, r.1),
        forall|j: int| 0 <= j < r.0 ==> is_space(#[trigger] s[j]),
        forall|j: int| r.1 <= j < s.len() ==> is_space(#[trigger] s[j]),
        r.0 < r.1 ==> !is_space(s[r.0]) && !is_space(s[r.1 - 1]),
{
    let a = lemma_trim_start_shape(s);
    let t = s.skip(a);
    let b = lemma_trim_end_shape(t);
    assert(t.take(b) == s.subrange(a, a + b));
    assert forall|j: int| a + b <= j < s.len() implies is_space(#[trigger] s[j]) by {
        assert(s[j] == t[j - a]);
    }
    if b > 0 {
        assert(s[a] == t[0]);
        assert(s[a + b - 1] == t[b - 1]);
    }
    (a, a + b)
}

} // verus!

verus! {

/// Right-aligning in a field fills it: the result is as long as the field
/// (or as the text, when that is longer), ends with the text, and has only
/// spaces before it.
pub proof fn law_pad_left_fills(s: Seq<char>, width: nat)
    ensures
        pad_left(s, width).len() == if s.len() < width { width } else { s.len() },
        pad_left(s, width).skip(pad_left(s, width).len() - s.len()) == s,
        forall|j: int|
            0 <= j < pad_left(s, width).len() - s.len() ==> #[trigger] pad_left(s, width)[j] == ' ',
{
    let r = pad_left(s, width);
    assert(r.skip(r.len() - s.len()) == s);
}

/// Left-aligning in a field fills it: the result is as long as the field
/// (or as the text, when that is longer), starts with the text, and has
/// only spaces after it.
pub proof fn law_pad_right_fills(s: Seq<char>, width: nat)
    ensures
        pad_right(s, width).len() == if s.len() < width { width } else { s.len() },
        pad_right(s, width).take(s.len() as int) == s,
        forall|j: int| s.len() <= j < pad_right(s, width).len() ==> #[trigger] pad_right(s, width)[j] == ' ',
{
    let r = pad_right(s, width);
    assert(r.take(s.len() as int) == s);
}

/// A text holding a character that is not a digit, after an optional
/// leading `+`, reads as no number; so does an empty text or a lone `+`.
pub proof fn law_parse_rejects_non_digits(s: Seq<char>, max: nat)
    ensures
        s.len() == 0 ==> parse_unsigned(s, max) is None,
        s == seq!['+'] ==> parse_unsigned(s, max) is None,
        forall|j: int|
            (if s.len() > 0 && s[0] == '+' { 1int } else { 0int }) <= j < s.len() && !is_digit(
                #[trigger] s[j],
            ) ==> parse_unsigned(s, max) is None,
        parse_unsigned(s, max) matches Some(v) ==> v <= max,
{
    assert forall|j: int|
        (if s.len() > 0 && s[0] == '+' { 1int } else { 0int }) <= j < s.len() && !is_digit(
            #[trigger] s[j],
        ) implies parse_unsigned(s, max) is None by {
        if s.len() > 0 && s[0] == '+' {
            assert(s.drop_first()[j - 1] == s[j]);
        }
    }
    if s == seq!['+'] {
        assert(s.drop_first().len() == 0);
    }
}

} // verus!

verus! {

/// Lines split at each `\n`: a first stretch `a` without `\n` followed by
/// `\n` and the rest `b` gives `a` (without one `\r` at its end) as its
/// first line and then the lines of `b`; a non-empty text without `\n` is
/// one line, kept whole.
pub proof fn law_lines_split_at_newline(a: Seq<char>, b: Seq<char>)
    requires
        forall|j: int| 0 <= j < a.len() ==> #[trigger] a[j] != '\n',
    ensures
        lines(a + seq!['\n'] + b) == seq![strip_cr(a)] + lines(b),
        a.len() > 0 ==> lines(a) == seq![a],
        a.len() == 0 ==> lines(a) == Seq::<Seq<char>>::empty(),
{
    let s = a + seq!['\n'] + b;
    let i = a.len() as int;
    assert(is_first_char(s, '\n', i)) by {
        assert forall|j: int| 0 <= j < i implies #[trigger] s[j] != '\n' by {
            assert(s[j] == a[j]);
        }
    }
    lemma_first_char_unique(s, '\n', i);
    assert(s.take(i) == a);
    assert(s.skip(i + 1) == b);
    if a.len() > 0 {
        lemma_first_char_none(a, '\n');
    }
}

} // verus!
