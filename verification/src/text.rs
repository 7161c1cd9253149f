use vstd::prelude::*;

verus! {

// ---------------------------------------------------------------------------
// Decimal integers, as Rust's `FromStr` for the integer types reads them
// ---------------------------------------------------------------------------

/// Whether `c` is an ASCII decimal digit.
pub open spec fn is_digit(c: char) -> bool {
    '0' <= c && c <= '9'
}

/// The value of one decimal digit.
pub open spec fn digit_value(c: char) -> int {
    c as int - '0' as int
}

/// Whether every character of `s` is a decimal digit.
pub open spec fn all_digits(s: Seq<char>) -> bool {
    forall|i: int| 0 <= i < s.len() ==> is_digit(#[trigger] s[i])
}

/// The number written by a sequence of decimal digits, most significant first.
pub open spec fn digits_value(s: Seq<char>) -> int
    decreases s.len(),
{
    if s.len() == 0 {
        0
    } else {
        digits_value(s.drop_last()) * 10 + digit_value(s.last())
    }
}

/// The integer written in `s`, before any range check: an optional sign
/// (`+` always, `-` only when `signed`) followed by at least one digit, and
/// nothing else. `None` for any other text.
pub open spec fn decimal_text_value(s: Seq<char>, signed: bool) -> Option<int> {
    if s.len() == 0 {
        None
    } else if (s[0] == '+' || s[0] == '-') && s.len() == 1 {
        None
    } else if s[0] == '+' {
        if all_digits(s.drop_first()) {
            Some(digits_value(s.drop_first()))
        } else {
            None
        }
    } else if s[0] == '-' && signed {
        if all_digits(s.drop_first()) {
            Some(-digits_value(s.drop_first()))
        } else {
            None
        }
    } else if all_digits(s) {
        Some(digits_value(s))
    } else {
        None
    }
}

/// `v` when it lies in `lo..=hi`, `None` otherwise.
pub open spec fn within(v: Option<int>, lo: int, hi: int) -> Option<int> {
    match v {
        Some(x) => if lo <= x && x <= hi {
            Some(x)
        } else {
            None
        },
        None => None,
    }
}

/// What `s.parse::<i64>().ok()` gives.
pub open spec fn spec_parse_i64(s: Seq<char>) -> Option<i64> {
    match within(decimal_text_value(s, true), i64::MIN as int, i64::MAX as int) {
        Some(x) => Some(x as i64),
        None => None,
    }
}

/// What `s.parse::<i32>().ok()` gives.
pub open spec fn spec_parse_i32(s: Seq<char>) -> Option<i32> {
    match within(decimal_text_value(s, true), i32::MIN as int, i32::MAX as int) {
        Some(x) => Some(x as i32),
        None => None,
    }
}

/// What `s.parse::<u64>().ok()` gives.
pub open spec fn spec_parse_u64(s: Seq<char>) -> Option<u64> {
    match within(decimal_text_value(s, false), 0, u64::MAX as int) {
        Some(x) => Some(x as u64),
        None => None,
    }
}

proof fn lemma_digits_value_nonneg(s: Seq<char>)
    requires
        all_digits(s),
    ensures
        digits_value(s) >= 0,
    decreases s.len(),
{
    if s.len() > 0 {
        assert(all_digits(s.drop_last()));
        lemma_digits_value_nonneg(s.drop_last());
        assert(is_digit(s[s.len() - 1]));
    }
}

/// A run of digits is worth at least as much as any of its prefixes.
proof fn lemma_digits_prefix_le(s: Seq<char>, k: int)
    requires
        all_digits(s),
        0 <= k <= s.len(),
    ensures
        digits_value(s.take(k)) <= digits_value(s),
    decreases s.len() - k,
{
    if k < s.len() {
        lemma_digits_prefix_le(s, k + 1);
        let t = s.take(k + 1);
        assert(t.drop_last() =~= s.take(k));
        assert(all_digits(s.take(k)));
        lemma_digits_value_nonneg(s.take(k));
        assert(is_digit(t[k]));
    } else {
        assert(s.take(k) =~= s);
    }
}

/// A one- or two-digit text is read as the number it writes.
pub proof fn lemma_short_decimal(s: Seq<char>)
    requires
        1 <= s.len() <= 2,
        all_digits(s),
    ensures
        decimal_text_value(s, false) == Some(
            if s.len() == 1 {
                digit_value(s[0])
            } else {
                digit_value(s[0]) * 10 + digit_value(s[1])
            },
        ),
{
    assert(is_digit(s[0]));
    assert(s[0] != '+' && s[0] != '-');
    let t = s.drop_last();
    if s.len() == 2 {
        let u = t.drop_last();
        assert(u =~= Seq::<char>::empty());
        assert(digits_value(u) == 0);
        assert(t.last() == s[0]);
        assert(digits_value(t) == digits_value(u) * 10 + digit_value(t.last()));
        assert(digits_value(s) == digits_value(t) * 10 + digit_value(s[1]));
    } else {
        assert(t =~= Seq::<char>::empty());
        assert(digits_value(t) == 0);
        assert(digits_value(s) == digits_value(t) * 10 + digit_value(s[0]));
    }
}

/// The decimal digit that writes `d`, for `d` in `0..10`.
pub open spec fn digit_char(d: int) -> char {
    if d == 0 {
        '0'
    } else if d == 1 {
        '1'
    } else if d == 2 {
        '2'
    } else if d == 3 {
        '3'
    } else if d == 4 {
        '4'
    } else if d == 5 {
        '5'
    } else if d == 6 {
        '6'
    } else if d == 7 {
        '7'
    } else if d == 8 {
        '8'
    } else {
        '9'
    }
}

/// The shortest decimal writing of `n`, most significant digit first.
pub open spec fn decimal_digits(n: nat) -> Seq<char>
    decreases n,
{
    if n < 10 {
        seq![digit_char(n as int)]
    } else {
        decimal_digits(n / 10).push(digit_char((n % 10) as int))
    }
}

/// How `n` is written in decimal: its digits, after a `-` when negative.
pub open spec fn decimal_writing(n: int) -> Seq<char> {
    if n < 0 {
        seq!['-'] + decimal_digits((-n) as nat)
    } else {
        decimal_digits(n as nat)
    }
}

proof fn lemma_digit_char(d: int)
    requires
        0 <= d < 10,
    ensures
        is_digit(digit_char(d)),
        digit_value(digit_char(d)) == d,
{
}

proof fn lemma_decimal_digits(n: nat)
    ensures
        decimal_digits(n).len() >= 1,
        all_digits(decimal_digits(n)),
        digits_value(decimal_digits(n)) == n,
    decreases n,
{
    if n < 10 {
        lemma_digit_char(n as int);
        let s = decimal_digits(n);
        assert(s.drop_last() =~= Seq::<char>::empty());
        assert(digits_value(s.drop_last()) == 0);
        assert(s.last() == digit_char(n as int));
        assert(digits_value(s) == digits_value(s.drop_last()) * 10 + digit_value(s.last()));
    } else {
        lemma_digit_char((n % 10) as int);
        lemma_decimal_digits(n / 10);
        let s = decimal_digits(n);
        assert(s.drop_last() =~= decimal_digits(n / 10));
        assert forall|i: int| 0 <= i < s.len() implies is_digit(#[trigger] s[i]) by {
            if i < s.len() - 1 {
                assert(s[i] == decimal_digits(n / 10)[i]);
            }
        }
        assert(s.last() == digit_char((n % 10) as int));
        assert(digits_value(s) == digits_value(decimal_digits(n / 10)) * 10 + (n % 10));
        assert(n == (n / 10) * 10 + n % 10) by (nonlinear_arith);
    }
}

/// Every integer is read back from its decimal writing, digit by digit at
/// its place value and with its sign; and every integer of a reader's range
/// is read back by that reader (`i64`, `i32`, and `u64` for those not
/// negative), while the unsigned reader refuses a written `-`.
pub proof fn lemma_read_back_decimal(n: int)
    ensures
        decimal_text_value(decimal_writing(n), true) == Some(n),
        decimal_text_value(decimal_writing(n), false) == if n >= 0 {
            Some(n)
        } else {
            None::<int>
        },
        i64::MIN <= n <= i64::MAX ==> spec_parse_i64(decimal_writing(n)) == Some(n as i64),
        i32::MIN <= n <= i32::MAX ==> spec_parse_i32(decimal_writing(n)) == Some(n as i32),
        0 <= n <= u64::MAX ==> spec_parse_u64(decimal_writing(n)) == Some(n as u64),
{
    if n < 0 {
        let d = decimal_digits((-n) as nat);
        lemma_decimal_digits((-n) as nat);
        let s = decimal_writing(n);
        assert(s.drop_first() =~= d);
        assert(s[0] == '-');
        assert(!is_digit(s[0]));
    } else {
        lemma_decimal_digits(n as nat);
        let s = decimal_writing(n);
        assert(is_digit(s[0]));
    }
}

/// Reads a decimal integer in `lo..=hi` the way Rust's integer `FromStr` does.
fn parse_decimal(s: &str, signed: bool, lo: i128, hi: i128) -> (r: Option<i128>)
    requires
        -0x1_0000_0000_0000_0000_0000 <= lo <= 0 <= hi <= 0x1_0000_0000_0000_0000_0000,
    ensures
        match within(decimal_text_value(s@, signed), lo as int, hi as int) {
            Some(x) => r == Some(x as i128),
            None => r is None,
        },
{
    let n = s.unicode_len();
    if n == 0 {
        return None;
    }
    let first = s.get_char(0);
    if (first == '+' || first == '-') && n == 1 {
        return None;
    }
    let mut start: usize = 0;
    let mut neg = false;
    if first == '+' {
        start = 1;
    } else if first == '-' && signed {
        start = 1;
        neg = true;
    }
    let ghost body = s@.subrange(start as int, n as int);
    assert(start == 1 ==> body =~= s@.drop_first());
    assert(start == 0 ==> body =~= s@);
    assert(decimal_text_value(s@, signed) == if all_digits(body) {
        Some(if neg { -digits_value(body) } else { digits_value(body) })
    } else {
        None::<int>
    });
    let bound: i128 = if neg {
        -lo
    } else {
        hi
    };
    let mut acc: i128 = 0;
    let mut i: usize = start;
    while i < n
        invariant
            start <= i <= n,
            n == s@.len(),
            start <= 1,
            body == s@.subrange(start as int, n as int),
            0 <= bound <= 0x1_0000_0000_0000_0000_0000,
            bound == if neg { -lo } else { hi as int },
            lo <= 0 <= hi,
            decimal_text_value(s@, signed) == if all_digits(body) {
                Some(if neg { -digits_value(body) } else { digits_value(body) })
            } else {
                None::<int>
            },
            0 <= acc <= bound,
            all_digits(body.take(i - start)),
            acc == digits_value(body.take(i - start)),
        decreases n - i,
    {
        let c = s.get_char(i);
        assert(body[i - start] == c);
        if !('0' <= c && c <= '9') {
            assert(!all_digits(body));
            return None;
        }
        let d = (c as u32 - '0' as u32) as i128;
        let ghost prev = body.take(i - start);
        let ghost next = body.take(i - start + 1);
        assert(next.drop_last() =~= prev);
        assert(next.last() == c);
        assert(all_digits(next));
        acc = acc * 10 + d;
        if acc > bound {
            proof {
                if all_digits(body) {
                    lemma_digits_prefix_le(body, i - start + 1);
                }
            }
            return None;
        }
        i = i + 1;
    }
    assert(body.take(n - start) =~= body);
    if neg {
        Some(-acc)
    } else {
        Some(acc)
    }
}

/// `s.parse::<i64>().ok()`.
pub fn parse_i64(s: &str) -> (r: Option<i64>)
    ensures
        r == spec_parse_i64(s@),
{
    match parse_decimal(s, true, i64::MIN as i128, i64::MAX as i128) {
        Some(v) => Some(v as i64),
        None => None,
    }
}

/// `s.parse::<i32>().ok()`.
pub fn parse_i32(s: &str) -> (r: Option<i32>)
    ensures
        r == spec_parse_i32(s@),
{
    match parse_decimal(s, true, i32::MIN as i128, i32::MAX as i128) {
        Some(v) => Some(v as i32),
        None => None,
    }
}

/// `s.parse::<u64>().ok()`.
pub fn parse_u64(s: &str) -> (r: Option<u64>)
    ensures
        r == spec_parse_u64(s@),
{
    match parse_decimal(s, false, 0, u64::MAX as i128) {
        Some(v) => Some(v as u64),
        None => None,
    }
}


// ---------------------------------------------------------------------------
// Comparing, blank tests and splitting
// ---------------------------------------------------------------------------

/// Whether two texts hold the same characters.
pub fn str_eq(a: &str, b: &str) -> (r: bool)
    ensures
        r == (a@ == b@),
{
    let n = a.unicode_len();
    if n != b.unicode_len() {
        return false;
    }
    let mut i: usize = 0;
    while i < n
        invariant
            i <= n,
            n == a@.len(),
            n == b@.len(),
            forall|j: int| 0 <= j < i ==> a@[j] == b@[j],
        decreases n - i,
    {
        if a.get_char(i) != b.get_char(i) {
            return false;
        }
        i = i + 1;
    }
    assert(a@ =~= b@);
    true
}

/// Whether `c` has the Unicode `White_Space` property (what `char::is_whitespace` tests).
pub open spec fn is_white_space(c: char) -> bool {
    ||| ('\u{9}' <= c && c <= '\u{d}')
    ||| c == ' '
    ||| c == '\u{85}'
    ||| c == '\u{a0}'
    ||| c == '\u{1680}'
    ||| ('\u{2000}' <= c && c <= '\u{200a}')
    ||| c == '\u{2028}'
    ||| c == '\u{2029}'
    ||| c == '\u{202f}'
    ||| c == '\u{205f}'
    ||| c == '\u{3000}'
}

/// Whether nothing is left of `s` once white space is trimmed from both ends.
pub open spec fn is_blank_text(s: Seq<char>) -> bool {
    forall|i: int| 0 <= i < s.len() ==> is_white_space(#[trigger] s[i])
}

/// `s.trim().is_empty()`.
pub fn is_blank(s: &str) -> (r: bool)
    ensures
        r == is_blank_text(s@),
{
    let n = s.unicode_len();
    let mut i: usize = 0;
    while i < n
        invariant
            i <= n,
            n == s@.len(),
            forall|j: int| 0 <= j < i ==> is_white_space(#[trigger] s@[j]),
        decreases n - i,
    {
        let c = s.get_char(i);
        let ws = ('\u{9}' <= c && c <= '\u{d}') || c == ' ' || c == '\u{85}' || c == '\u{a0}'
            || c == '\u{1680}' || ('\u{2000}' <= c && c <= '\u{200a}') || c == '\u{2028}'
            || c == '\u{2029}' || c == '\u{202f}' || c == '\u{205f}' || c == '\u{3000}';
        if !ws {
            return false;
        }
        i = i + 1;
    }
    true
}

/// The views of a sequence of strings.
pub open spec fn string_views(v: Seq<String>) -> Seq<Seq<char>> {
    v.map_values(|p: String| p@)
}

/// The pieces that `str::split` with a one-character separator yields: the
/// text between consecutive separators, including empty pieces, and a single
/// empty piece for the empty text.
pub open spec fn split_pieces(s: Seq<char>, sep: char) -> Seq<Seq<char>>
    decreases s.len(),
{
    if s.len() == 0 {
        seq![Seq::<char>::empty()]
    } else {
        let prev = split_pieces(s.drop_last(), sep);
        if s.last() == sep {
            prev.push(Seq::<char>::empty())
        } else {
            prev.update(prev.len() - 1, prev.last().push(s.last()))
        }
    }
}

/// The pieces put back together with the separator between each two of them.
pub open spec fn join_pieces(p: Seq<Seq<char>>, sep: char) -> Seq<char>
    decreases p.len(),
{
    if p.len() == 0 {
        Seq::<char>::empty()
    } else if p.len() == 1 {
        p[0]
    } else {
        join_pieces(p.drop_last(), sep).push(sep) + p.last()
    }
}

proof fn lemma_split_nonempty(s: Seq<char>, sep: char)
    ensures
        split_pieces(s, sep).len() >= 1,
    decreases s.len(),
{
    if s.len() > 0 {
        lemma_split_nonempty(s.drop_last(), sep);
    }
}

/// Splitting on a separator loses nothing: joining the pieces again with the
/// separator gives back the text, and no piece holds the separator.
#[verifier::spinoff_prover]
pub proof fn lemma_split_join(s: Seq<char>, sep: char)
    ensures
        join_pieces(split_pieces(s, sep), sep) == s,
        forall|i: int| #![trigger split_pieces(s, sep)[i]]
            0 <= i < split_pieces(s, sep).len() ==> !split_pieces(s, sep)[i].contains(sep),
    decreases s.len(),
{
    if s.len() == 0 {
        assert(split_pieces(s, sep) =~= seq![Seq::<char>::empty()]);
        assert(s =~= Seq::<char>::empty());
    } else {
        let prev = split_pieces(s.drop_last(), sep);
        let cur = split_pieces(s, sep);
        let c = s.last();
        lemma_split_join(s.drop_last(), sep);
        lemma_split_nonempty(s.drop_last(), sep);
        if c == sep {
            assert(cur.drop_last() =~= prev);
            assert(join_pieces(cur, sep) =~= s);
            assert forall|i: int| #![trigger cur[i]] 0 <= i < cur.len() implies !cur[i].contains(sep) by {
                if i < prev.len() {
                    assert(cur[i] == prev[i]);
                } else {
                    assert(cur[i] =~= Seq::<char>::empty());
                }
            }
        } else {
            let last = prev.last().push(c);
            if prev.len() == 1 {
                assert(cur =~= seq![last]);
                assert(prev[0] == join_pieces(prev, sep));
                assert(join_pieces(cur, sep) == last);
                assert(last =~= s);
            } else {
                assert(cur.drop_last() =~= prev.drop_last());
                assert(join_pieces(prev, sep) == join_pieces(prev.drop_last(), sep).push(sep)
                    + prev.last());
                assert(join_pieces(cur, sep) == join_pieces(prev.drop_last(), sep).push(sep)
                    + last);
                assert(join_pieces(cur, sep) =~= join_pieces(prev, sep).push(c));
                assert(s =~= s.drop_last().push(c));
            }
            assert forall|i: int| #![trigger cur[i]] 0 <= i < cur.len() implies !cur[i].contains(sep) by {
                if i < prev.len() - 1 {
                    assert(cur[i] == prev[i]);
                } else {
                    assert(cur[i] == last);
                    assert(!prev[prev.len() - 1].contains(sep));
                    if last.contains(sep) {
                        let k = choose|k: int| 0 <= k < last.len() && last[k] == sep;
                        if k < last.len() - 1 {
                            assert(prev.last()[k] == sep);
                        }
                    }
                }
            }
        }
    }
}

/// `s.split(sep)`, each piece as an owned string.
pub fn split_on(s: &str, sep: char) -> (r: Vec<String>)
    ensures
        string_views(r@) == split_pieces(s@, sep),
{
    let n = s.unicode_len();
    let mut pieces: Vec<String> = Vec::new();
    let mut start: usize = 0;
    let mut i: usize = 0;
    assert(s@.take(0) =~= Seq::<char>::empty());
    assert(s@.subrange(0, 0) =~= Seq::<char>::empty());
    assert(string_views(pieces@) + seq![s@.subrange(0, 0)] =~= split_pieces(s@.take(0), sep));
    while i < n
        invariant
            start <= i <= n,
            n == s@.len(),
            string_views(pieces@) + seq![s@.subrange(start as int, i as int)] == split_pieces(
                s@.take(i as int),
                sep,
            ),
        decreases n - i,
    {
        let c = s.get_char(i);
        let ghost before = string_views(pieces@);
        let ghost cur = s@.subrange(start as int, i as int);
        assert(s@.take(i + 1).drop_last() =~= s@.take(i as int));
        assert(s@.take(i + 1).last() == c);
        if c == sep {
            let piece = s.substring_char(start, i).to_owned();
            pieces.push(piece);
            start = i + 1;
            assert(string_views(pieces@) =~= before.push(cur));
            assert(s@.subrange(start as int, i + 1) =~= Seq::<char>::empty());
            assert(string_views(pieces@) + seq![s@.subrange(start as int, i + 1)] =~= (before
                + seq![cur]).push(Seq::<char>::empty()));
        } else {
            assert(s@.subrange(start as int, i + 1) =~= cur.push(c));
            assert(string_views(pieces@) + seq![s@.subrange(start as int, i + 1)] =~= (before
                + seq![cur]).update(before.len() as int, cur.push(c)));
        }
        i = i + 1;
    }
    let ghost before = string_views(pieces@);
    let last = s.substring_char(start, n).to_owned();
    pieces.push(last);
    assert(s@.take(n as int) =~= s@);
    assert(string_views(pieces@) =~= before + seq![s@.subrange(start as int, n as int)]);
    pieces
}

} // verus!
