//! Character-level helpers: scanning a description for its table size and
//! rendering numbers and padded columns.

use vstd::prelude::*;
use vstd::string::{StrSliceExecFns, StringExecFns};

verus! {

/// Trusted: std's `String::push` appends the given character to the end of
/// the string and leaves the characters before it as they were.
pub assume_specification[ String::push ](s: &mut String, ch: char)
    ensures
        final(s)@ == old(s)@.push(ch),
;

/// Whether `c` is one of the ten ASCII decimal digits.
pub open spec fn is_digit(c: char) -> bool {
    '0' <= c && c <= '9'
}

/// The numeric value of an ASCII decimal digit.
pub open spec fn digit_value(c: char) -> nat
    recommends
        is_digit(c),
{
    (c as int - '0' as int) as nat
}

/// The number that a sequence of decimal digits denotes, most significant
/// digit first. The empty sequence denotes zero.
pub open spec fn digits_value(s: Seq<char>) -> nat
    decreases s.len(),
{
    if s.len() == 0 {
        0
    } else {
        digits_value(s.drop_last()) * 10 + digit_value(s.last())
    }
}

/// The first position at or after `i` that holds a digit, or the length of
/// `s` if there is none.
pub open spec fn skip_non_digits(s: Seq<char>, i: int) -> int
    decreases s.len() - i,
{
    if i < 0 || i >= s.len() {
        s.len() as int
    } else if is_digit(s[i]) {
        i
    } else {
        skip_non_digits(s, i + 1)
    }
}

/// The first position at or after `i` that does not hold a digit, or the
/// length of `s` if every later position does.
pub open spec fn skip_digits(s: Seq<char>, i: int) -> int
    decreases s.len() - i,
{
    if 0 <= i < s.len() && is_digit(s[i]) {
        skip_digits(s, i + 1)
    } else {
        i
    }
}

/// The first maximal run of digits in `s`; empty if `s` holds no digit.
pub open spec fn first_digit_run(s: Seq<char>) -> Seq<char> {
    let start = skip_non_digits(s, 0);
    let end = skip_digits(s, start);
    s.subrange(start, end)
}

/// The table size that a description carries: the value of its first run of
/// decimal digits. `None` if the description holds no digit or the value does
/// not fit in 32 bits.
pub open spec fn table_size(s: Seq<char>) -> Option<u32> {
    let run = first_digit_run(s);
    if run.len() > 0 && digits_value(run) <= u32::MAX {
        Some(digits_value(run) as u32)
    } else {
        None
    }
}

/// Positions returned by `skip_non_digits` lie within the sequence, everything
/// before them from `i` on is no digit, and, unless at the end, they hold one.
pub proof fn lemma_skip_non_digits(s: Seq<char>, i: int)
    requires
        0 <= i <= s.len(),
    ensures
        i <= skip_non_digits(s, i) <= s.len(),
        forall|j: int| i <= j < skip_non_digits(s, i) ==> !is_digit(#[trigger] s[j]),
        skip_non_digits(s, i) < s.len() ==> is_digit(s[skip_non_digits(s, i)]),
    decreases s.len() - i,
{
    if i < s.len() && !is_digit(s[i]) {
        lemma_skip_non_digits(s, i + 1);
    }
}

/// Positions returned by `skip_digits` lie within the sequence, everything
/// before them from `i` on is a digit, and, unless at the end, they hold none.
pub proof fn lemma_skip_digits(s: Seq<char>, i: int)
    requires
        0 <= i <= s.len(),
    ensures
        i <= skip_digits(s, i) <= s.len(),
        forall|j: int| i <= j < skip_digits(s, i) ==> is_digit(#[trigger] s[j]),
        skip_digits(s, i) < s.len() ==> !is_digit(s[skip_digits(s, i)]),
    decreases s.len() - i,
{
    if i < s.len() && is_digit(s[i]) {
        lemma_skip_digits(s, i + 1);
    }
}

/// What `first_digit_run` picks: the digits from the first digit of `s` up
/// to the next character that is no digit, or to the end. Nothing before the
/// run is a digit, and the run cannot be made longer.
pub proof fn lemma_first_digit_run(s: Seq<char>)
    ensures
        ({
            let start = skip_non_digits(s, 0);
            let end = skip_digits(s, start);
            &&& 0 <= start <= end <= s.len()
            &&& first_digit_run(s) == s.subrange(start, end)
            &&& forall|j: int| 0 <= j < start ==> !is_digit(#[trigger] s[j])
            &&& forall|j: int| start <= j < end ==> is_digit(#[trigger] s[j])
            &&& end < s.len() ==> !is_digit(s[end])
            &&& start < s.len() ==> start < end
        }),
{
    lemma_skip_non_digits(s, 0);
    lemma_skip_digits(s, skip_non_digits(s, 0));
}

/// The characters of a string slice, in order.
pub fn chars_of(s: &str) -> (v: Vec<char>)
    ensures
        v@ == s@,
{
    let mut v: Vec<char> = Vec::new();
    for c in it: s.chars()
        invariant
            it.seq() == s@,
            v@ == s@.take(it.index()),
    {
        v.push(c);
    }
    v
}

/// The value of the digit `c`, or `None` if `c` is no digit.
pub fn digit_of(c: char) -> (r: Option<u32>)
    ensures
        r is Some <==> is_digit(c),
        r matches Some(d) ==> d == digit_value(c) && d < 10,
{
    if '0' <= c && c <= '9' {
        Some(c as u32 - '0' as u32)
    } else {
        None
    }
}

/// Reads the table size out of a description: the value of the first run of
/// decimal digits, `None` where there is no digit or the value overflows.
pub fn parse_table_size(desc: &str) -> (r: Option<u32>)
    ensures
        r == table_size(desc@),
{
    let cs = chars_of(desc);
    let n = cs.len();
    let mut start: usize = 0;
    while start < n && digit_of(cs[start]).is_none()
        invariant
            start <= n,
            n == cs@.len(),
            skip_non_digits(cs@, 0) == skip_non_digits(cs@, start as int),
        decreases n - start,
    {
        start = start + 1;
    }
    let mut end: usize = start;
    let mut acc: u32 = 0;
    let mut fits: bool = true;
    while end < n
        invariant
            start <= end <= n,
            n == cs@.len(),
            start as int == skip_non_digits(cs@, 0),
            skip_digits(cs@, start as int) == skip_digits(cs@, end as int),
            fits ==> acc == digits_value(cs@.subrange(start as int, end as int)),
            !fits ==> digits_value(cs@.subrange(start as int, end as int)) > u32::MAX,
        ensures
            end as int == skip_digits(cs@, start as int),
        decreases n - end,
    {
        let d = match digit_of(cs[end]) {
            Some(d) => d,
            None => {
                break ;
            },
        };
        proof {
            let next = cs@.subrange(start as int, end as int + 1);
            assert(next.drop_last() =~= cs@.subrange(start as int, end as int));
            assert(next.last() == cs@[end as int]);
        }
        if fits {
            match acc.checked_mul(10) {
                Some(t) => match t.checked_add(d) {
                    Some(v) => {
                        acc = v;
                    },
                    None => {
                        fits = false;
                    },
                },
                None => {
                    fits = false;
                },
            }
        }
        end = end + 1;
    }
    if end > start && fits {
        Some(acc)
    } else {
        None
    }
}

/// The character that stands for the decimal digit `d`.
pub open spec fn digit_char(d: nat) -> char
    recommends
        d < 10,
{
    ('0' as int + d as int) as char
}

/// `n` in decimal, without sign, separators or leading zeros.
pub open spec fn decimal(n: nat) -> Seq<char>
    decreases n,
{
    if n < 10 {
        seq![digit_char(n)]
    } else {
        decimal(n / 10).push(digit_char(n % 10))
    }
}

/// The character that stands for the hexadecimal digit `d`, in lower case.
pub open spec fn hex_char(d: nat) -> char
    recommends
        d < 16,
{
    if d < 10 {
        ('0' as int + d as int) as char
    } else {
        ('a' as int + d as int - 10) as char
    }
}

/// The `i`-th of the sixteen hexadecimal digits of `v`, counted from the most
/// significant one.
pub open spec fn hex_digit(v: u64, i: int) -> nat
    recommends
        0 <= i < 16,
{
    ((v >> ((4 * (15 - i)) as u64)) & 0xf) as nat
}

/// `v` as `0x` and sixteen lower-case hexadecimal digits, zeros included.
pub open spec fn hex_fixed(v: u64) -> Seq<char> {
    seq!['0', 'x'] + Seq::new(16, |i: int| hex_char(hex_digit(v, i)))
}

/// `s` moved to the right edge of a column `width` characters wide: spaces are
/// put in front of it until it is that long. A longer `s` stays as it is.
pub open spec fn pad_left(s: Seq<char>, width: nat) -> Seq<char> {
    if s.len() >= width {
        s
    } else {
        Seq::new((width - s.len()) as nat, |i: int| ' ') + s
    }
}

/// Appends the characters of `v` to `out`.
pub fn push_chars(out: &mut String, v: &Vec<char>)
    ensures
        final(out)@ == old(out)@ + v@,
{
    let mut i: usize = 0;
    while i < v.len()
        invariant
            i <= v.len(),
            out@ == old(out)@ + v@.take(i as int),
        decreases v.len() - i,
    {
        out.push(v[i]);
        proof {
            assert(v@.take(i as int + 1) =~= v@.take(i as int).push(v@[i as int]));
        }
        i = i + 1;
    }
    proof {
        assert(v@.take(v.len() as int) =~= v@);
    }
}

/// Appends the characters of `s` to the buffer `buf`.
pub fn extend_chars(buf: &mut Vec<char>, s: &str)
    ensures
        final(buf)@ == old(buf)@ + s@,
{
    for c in it: s.chars()
        invariant
            it.seq() == s@,
            buf@ == old(buf)@ + s@.take(it.index()),
    {
        proof {
            assert(s@.take(it.index() + 1) =~= s@.take(it.index()).push(c));
        }
        buf.push(c);
    }
    proof {
        assert(s@.take(s@.len() as int) =~= s@);
    }
}

/// Appends `n` in decimal to `out`.
pub fn push_decimal(out: &mut String, n: u32)
    ensures
        final(out)@ == old(out)@ + decimal(n as nat),
    decreases n,
{
    if n >= 10 {
        push_decimal(out, n / 10);
    }
    let d: u8 = (n % 10) as u8;
    out.push((48u8 + d) as char);
    proof {
        if n >= 10 {
            assert(out@ =~= old(out)@ + decimal(n as nat));
        } else {
            assert(out@ =~= old(out)@ + decimal(n as nat));
        }
    }
}

/// Appends `v` to `out` as `0x` and sixteen lower-case hexadecimal digits.
pub fn push_hex(out: &mut String, v: u64)
    ensures
        final(out)@ == old(out)@ + hex_fixed(v),
{
    out.push('0');
    out.push('x');
    let mut i: u32 = 0;
    while i < 16
        invariant
            i <= 16,
            out@ == old(out)@ + seq!['0', 'x'] + Seq::new(i as nat, |k: int| hex_char(hex_digit(v, k))),
        decreases 16 - i,
    {
        let shift: u32 = 4 * (15 - i);
        let x: u64 = (v >> shift) & 0xf;
        assert(x < 16) by (bit_vector)
            requires
                x == (v >> shift) & 0xf,
        ;
        let d: u8 = x as u8;
        let c: char = if d < 10 {
            (48u8 + d) as char
        } else {
            (87u8 + d) as char
        };
        assert(c == hex_char(hex_digit(v, i as int)));
        out.push(c);
        proof {
            assert(Seq::new((i + 1) as nat, |k: int| hex_char(hex_digit(v, k))) =~= Seq::new(
                i as nat,
                |k: int| hex_char(hex_digit(v, k)),
            ).push(c));
        }
        i = i + 1;
    }
    proof {
        assert(out@ =~= old(out)@ + hex_fixed(v));
    }
}

/// Appends `s` to `out`, right-aligned in a column of `width` characters.
pub fn push_padded(out: &mut String, s: &str, width: usize)
    ensures
        final(out)@ == old(out)@ + pad_left(s@, width as nat),
{
    let n = s.unicode_len();
    let mut k: usize = n;
    while k < width
        invariant
            n <= k,
            k == n || k <= width,
            n == s@.len(),
            out@ == old(out)@ + Seq::new((k - n) as nat, |i: int| ' '),
        decreases width - k,
    {
        out.push(' ');
        proof {
            assert(Seq::new((k + 1 - n) as nat, |i: int| ' ') =~= Seq::new(
                (k - n) as nat,
                |i: int| ' ',
            ).push(' '));
        }
        k = k + 1;
    }
    let ghost spaces = Seq::new((k - n) as nat, |i: int| ' ');
    out.append(s);
    proof {
        if n < width {
            assert(spaces =~= Seq::new((width - s@.len()) as nat, |i: int| ' '));
            assert(out@ =~= old(out)@ + (spaces + s@));
        } else {
            assert(spaces =~= Seq::<char>::empty());
            assert(out@ =~= old(out)@ + s@);
        }
    }
}

} // verus!
