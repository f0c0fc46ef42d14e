//! Decimal rendering of integers, as the report and the start-time stamp print them.
use vstd::prelude::*;

verus! {

/// The ASCII digit for `d`; only `0 <= d < 10` is meaningful.
pub open spec fn digit_char(d: nat) -> char {
    if d == 0 {
        '0'
    } else if d == 1 {
        '1'
    } else if d == 2 {
        '2'
    } else if d == 3 {
        '3'
    } else if d == 4 {
        '4'
    } else if d == 5 {
        '5'
    } else if d == 6 {
        '6'
    } else if d == 7 {
        '7'
    } else if d == 8 {
        '8'
    } else {
        '9'
    }
}

/// The decimal digits of `n`, most significant first, without leading zeros ("0" for zero).
pub open spec fn decimal(n: nat) -> Seq<char>
    decreases n,
{
    if n < 10 {
        seq![digit_char(n)]
    } else {
        decimal(n / 10).push(digit_char(n % 10))
    }
}

/// `decimal(n)` preceded by as many '0' as it takes to reach `width` characters.
pub open spec fn zero_padded(n: nat, width: nat) -> Seq<char> {
    let digits = decimal(n);
    if digits.len() < width {
        Seq::new((width - digits.len()) as nat, |i: int| '0') + digits
    } else {
        digits
    }
}

/// A signed integer padded with zeros to `width` characters, the sign counted in the width.
pub open spec fn signed_zero_padded(n: int, width: nat) -> Seq<char> {
    if n < 0 {
        seq!['-'] + zero_padded((-n) as nat, if width > 0 { (width - 1) as nat } else { 0 })
    } else {
        zero_padded(n as nat, width)
    }
}

/// The significant digits of a fraction `f / 1000` (`0 < f < 1000`): three digits with the
/// trailing zeros dropped.
pub open spec fn milli_fraction(f: nat) -> Seq<char> {
    let d1 = f / 100;
    let d2 = (f / 10) % 10;
    let d3 = f % 10;
    if d3 != 0 {
        seq![digit_char(d1), digit_char(d2), digit_char(d3)]
    } else if d2 != 0 {
        seq![digit_char(d1), digit_char(d2)]
    } else {
        seq![digit_char(d1)]
    }
}

/// The exact decimal value of `ms / 1000`: sign, whole part, and the fraction without trailing
/// zeros (no point at all for a whole number of seconds).
pub open spec fn seconds_text(ms: int) -> Seq<char> {
    let a: nat = if ms < 0 { (-ms) as nat } else { ms as nat };
    let sign: Seq<char> = if ms < 0 { seq!['-'] } else { Seq::empty() };
    let whole = decimal(a / 1000);
    if a % 1000 == 0 {
        sign + whole
    } else {
        sign + whole + seq!['.'] + milli_fraction(a % 1000)
    }
}

/// The start-time stamp `MM/DD/YYYY hh:mm:ss`, each field zero-padded to its width.
pub open spec fn start_stamp(
    month: nat,
    day: nat,
    year: int,
    hour: nat,
    minute: nat,
    second: nat,
) -> Seq<char> {
    zero_padded(month, 2) + seq!['/'] + zero_padded(day, 2) + seq!['/'] + signed_zero_padded(
        year,
        4,
    ) + seq![' '] + zero_padded(hour, 2) + seq![':'] + zero_padded(minute, 2) + seq![':']
        + zero_padded(second, 2)
}

/// Whether `s` holds no escape character (`'\u{1b}'`).
pub open spec fn free_of_escape(s: Seq<char>) -> bool {
    forall|i: int| 0 <= i < s.len() ==> #[trigger] s[i] != '\u{1b}'
}

/// Whether `s` never holds an escape character directly followed by `'['`, the start of an ANSI
/// control sequence.
pub open spec fn opens_no_control_sequence(s: Seq<char>) -> bool {
    forall|i: int| 0 <= i < s.len() - 1 ==> !(#[trigger] s[i] == '\u{1b}' && s[i + 1] == '[')
}

pub proof fn lemma_escape_free_opens_none(s: Seq<char>)
    requires
        free_of_escape(s),
    ensures
        opens_no_control_sequence(s),
{
}

pub proof fn lemma_decimal_free_of_escape(n: nat)
    ensures
        free_of_escape(decimal(n)),
    decreases n,
{
    if n >= 10 {
        lemma_decimal_free_of_escape(n / 10);
        let d = decimal(n / 10);
        assert forall|i: int| 0 <= i < decimal(n).len() implies #[trigger] decimal(n)[i]
            != '\u{1b}' by {
            if i < d.len() {
                assert(decimal(n)[i] == d[i]);
            }
        }
    }
}

pub proof fn lemma_seconds_text_free_of_escape(ms: int)
    ensures
        free_of_escape(seconds_text(ms)),
{
    let a: nat = if ms < 0 { (-ms) as nat } else { ms as nat };
    lemma_decimal_free_of_escape(a / 1000);
    let t = seconds_text(ms);
    let sign: Seq<char> = if ms < 0 { seq!['-'] } else { Seq::empty() };
    let whole = decimal(a / 1000);
    assert forall|i: int| 0 <= i < t.len() implies #[trigger] t[i] != '\u{1b}' by {
        if i < sign.len() {
        } else if i < sign.len() + whole.len() {
            assert(t[i] == whole[i - sign.len()]);
        }
    }
}

fn digit_str(d: u128) -> (s: &'static str)
    requires
        d < 10,
    ensures
        s@ == seq![digit_char(d as nat)],
{
    proof {
        reveal_strlit("0");
        reveal_strlit("1");
        reveal_strlit("2");
        reveal_strlit("3");
        reveal_strlit("4");
        reveal_strlit("5");
        reveal_strlit("6");
        reveal_strlit("7");
        reveal_strlit("8");
        reveal_strlit("9");
    }
    if d == 0 {
        "0"
    } else if d == 1 {
        "1"
    } else if d == 2 {
        "2"
    } else if d == 3 {
        "3"
    } else if d == 4 {
        "4"
    } else if d == 5 {
        "5"
    } else if d == 6 {
        "6"
    } else if d == 7 {
        "7"
    } else if d == 8 {
        "8"
    } else {
        "9"
    }
}

/// Appends the decimal digits of `n` to `out`.
pub fn push_decimal(out: &mut String, n: u128)
    ensures
        final(out)@ == old(out)@ + decimal(n as nat),
    decreases n,
{
    if n >= 10 {
        push_decimal(out, n / 10);
    }
    let d = digit_str(n % 10);
    out.append(d);
    proof {
        assert(decimal(n as nat) == if n < 10 {
            seq![digit_char(n as nat)]
        } else {
            decimal((n / 10) as nat).push(digit_char((n % 10) as nat))
        });
        if n < 10 {
            assert(n % 10 == n);
        }
    }
}

/// The decimal representation of `n`, as `n.to_string()` gives it.
pub fn decimal_string(n: u128) -> (s: String)
    ensures
        s@ == decimal(n as nat),
{
    let mut s = String::new();
    push_decimal(&mut s, n);
    assert(s@ =~= decimal(n as nat));
    s
}

/// Appends `n` in decimal, padded with leading zeros to at least `width` characters.
pub fn push_zero_padded(out: &mut String, n: u64, width: usize)
    ensures
        final(out)@ == old(out)@ + zero_padded(n as nat, width as nat),
{
    let digits = decimal_string(n as u128);
    let len = digits.as_str().unicode_len();
    let ghost before = out@;
    if len < width {
        let mut k: usize = 0;
        while k < width - len
            invariant
                k <= width - len,
                len < width,
                out@ == before + Seq::new(k as nat, |i: int| '0'),
            decreases width - len - k,
        {
            proof {
                reveal_strlit("0");
            }
            out.append("0");
            k = k + 1;
            assert(out@ =~= before + Seq::new(k as nat, |i: int| '0'));
        }
    }
    out.append(digits.as_str());
    assert(out@ =~= before + zero_padded(n as nat, width as nat));
}

/// Appends `n` padded with zeros to `width` characters, a minus sign first and counted in the
/// width, as `{:0width$}` prints a signed integer.
pub fn push_signed_zero_padded(out: &mut String, n: i64, width: usize)
    ensures
        final(out)@ == old(out)@ + signed_zero_padded(n as int, width as nat),
{
    if n < 0 {
        proof {
            reveal_strlit("-");
        }
        out.append("-");
        let magnitude: u64 = ((-(n + 1)) as u64) + 1;
        let w: usize = if width > 0 { width - 1 } else { 0 };
        let ghost mid = out@;
        push_zero_padded(out, magnitude, w);
        assert(out@ =~= old(out)@ + signed_zero_padded(n as int, width as nat));
    } else {
        push_zero_padded(out, n as u64, width);
    }
}

/// The seconds that `ms` milliseconds make, as the report prints them: the exact decimal value
/// of `ms / 1000` with no trailing zeros in the fraction ("1.5", "0.25", "2", "-0.001").
pub fn seconds_string(ms: i128) -> (s: String)
    ensures
        s@ == seconds_text(ms as int),
{
    let a: u128 = if ms < 0 { ((-(ms + 1)) as u128) + 1 } else { ms as u128 };
    let mut s = String::new();
    if ms < 0 {
        proof {
            reveal_strlit("-");
        }
        s.append("-");
    }
    push_decimal(&mut s, a / 1000);
    let f = a % 1000;
    if f != 0 {
        proof {
            reveal_strlit(".");
        }
        s.append(".");
        let d1 = f / 100;
        let d2 = (f / 10) % 10;
        let d3 = f % 10;
        s.append(digit_str(d1));
        if d2 != 0 || d3 != 0 {
            s.append(digit_str(d2));
        }
        if d3 != 0 {
            s.append(digit_str(d3));
        }
    }
    assert(s@ =~= seconds_text(ms as int));
    s
}

/// The stamp `MM/DD/YYYY hh:mm:ss` that the server shows as its start time.
pub fn format_start_time(
    month: u32,
    day: u32,
    year: i32,
    hour: u32,
    minute: u32,
    second: u32,
) -> (s: String)
    ensures
        s@ == start_stamp(
            month as nat,
            day as nat,
            year as int,
            hour as nat,
            minute as nat,
            second as nat,
        ),
{
    proof {
        reveal_strlit("/");
        reveal_strlit(" ");
        reveal_strlit(":");
    }
    let mut s = String::new();
    push_zero_padded(&mut s, month as u64, 2);
    s.append("/");
    push_zero_padded(&mut s, day as u64, 2);
    s.append("/");
    push_signed_zero_padded(&mut s, year as i64, 4);
    s.append(" ");
    push_zero_padded(&mut s, hour as u64, 2);
    s.append(":");
    push_zero_padded(&mut s, minute as u64, 2);
    s.append(":");
    push_zero_padded(&mut s, second as u64, 2);
    assert(s@ =~= start_stamp(
        month as nat,
        day as nat,
        year as int,
        hour as nat,
        minute as nat,
        second as nat,
    ));
    s
}

/// The value of a decimal digit character; 10 for any other character.
pub open spec fn digit_value(c: char) -> nat {
    if c == '0' {
        0
    } else if c == '1' {
        1
    } else if c == '2' {
        2
    } else if c == '3' {
        3
    } else if c == '4' {
        4
    } else if c == '5' {
        5
    } else if c == '6' {
        6
    } else if c == '7' {
        7
    } else if c == '8' {
        8
    } else if c == '9' {
        9
    } else {
        10
    }
}

/// Whether every character of `s` is a decimal digit.
pub open spec fn all_digits(s: Seq<char>) -> bool {
    forall|i: int| 0 <= i < s.len() ==> #[trigger] digit_value(s[i]) < 10
}

/// The number that the digit string `s` denotes, read in base ten.
pub open spec fn digits_value(s: Seq<char>) -> int
    decreases s.len(),
{
    if s.len() == 0 {
        0
    } else {
        digits_value(s.drop_last()) * 10 + digit_value(s.last())
    }
}

/// The position of the first `'.'` in `s`, or -1.
pub open spec fn point_index(s: Seq<char>) -> int
    decreases s.len(),
{
    if s.len() == 0 {
        -1
    } else if s[0] == '.' {
        0
    } else if point_index(s.drop_first()) < 0 {
        -1
    } else {
        point_index(s.drop_first()) + 1
    }
}

/// `10` to the power `k`.
pub open spec fn pow10(k: nat) -> int
    decreases k,
{
    if k == 0 {
        1
    } else {
        10 * pow10((k - 1) as nat)
    }
}

/// The thousandths that a decimal text `[-]digits[.digits]` denotes: read back, a text of seconds
/// gives milliseconds.
pub open spec fn text_millis(t: Seq<char>) -> int {
    let neg = t.len() > 0 && t[0] == '-';
    let body = if neg {
        t.skip(1)
    } else {
        t
    };
    let p = point_index(body);
    let whole = if p < 0 {
        body
    } else {
        body.take(p)
    };
    let frac = if p < 0 {
        Seq::<char>::empty()
    } else {
        body.skip(p + 1)
    };
    let v = digits_value(whole) * 1000 + digits_value(frac) * pow10(
        if frac.len() <= 3 {
            (3 - frac.len()) as nat
        } else {
            0
        },
    );
    if neg {
        -v
    } else {
        v
    }
}

proof fn lemma_digit_char_value(d: nat)
    requires
        d < 10,
    ensures
        digit_value(digit_char(d)) == d,
{
}

/// The decimal digits of `n` are digits, there is at least one, and read back they give `n`.
pub proof fn lemma_decimal_reads_back(n: nat)
    ensures
        all_digits(decimal(n)),
        decimal(n).len() >= 1,
        digits_value(decimal(n)) == n,
    decreases n,
{
    if n < 10 {
        lemma_digit_char_value(n);
        assert(digits_value(Seq::<char>::empty()) == 0);
        assert(decimal(n).drop_last() =~= Seq::<char>::empty());
    } else {
        lemma_decimal_reads_back(n / 10);
        lemma_digit_char_value(n % 10);
        let d = decimal(n / 10);
        assert(decimal(n).drop_last() =~= d);
        assert(decimal(n).last() == digit_char(n % 10));
        assert(digits_value(decimal(n)) == digits_value(d) * 10 + digit_value(digit_char(n % 10)));
        assert((n / 10) * 10 + n % 10 == n);
        assert forall|i: int| 0 <= i < decimal(n).len() implies #[trigger] digit_value(
            decimal(n)[i],
        ) < 10 by {
            if i < d.len() {
                assert(decimal(n)[i] == d[i]);
            }
        }
    }
}

proof fn lemma_point_index_none(s: Seq<char>)
    requires
        all_digits(s),
    ensures
        point_index(s) == -1,
    decreases s.len(),
{
    if s.len() > 0 {
        assert(digit_value(s[0]) < 10);
        assert forall|i: int| 0 <= i < s.drop_first().len() implies #[trigger] digit_value(
            s.drop_first()[i],
        ) < 10 by {
            assert(s.drop_first()[i] == s[i + 1]);
        }
        lemma_point_index_none(s.drop_first());
    }
}

proof fn lemma_point_index_after_digits(a: Seq<char>, b: Seq<char>)
    requires
        all_digits(a),
    ensures
        point_index(a + seq!['.'] + b) == a.len(),
    decreases a.len(),
{
    let s = a + seq!['.'] + b;
    if a.len() == 0 {
        assert(s[0] == '.');
    } else {
        assert(digit_value(a[0]) < 10);
        assert(s[0] == a[0]);
        assert forall|i: int| 0 <= i < a.drop_first().len() implies #[trigger] digit_value(
            a.drop_first()[i],
        ) < 10 by {
            assert(a.drop_first()[i] == a[i + 1]);
        }
        lemma_point_index_after_digits(a.drop_first(), b);
        assert(s.drop_first() =~= a.drop_first() + seq!['.'] + b);
    }
}

proof fn lemma_milli_fraction_reads_back(f: nat)
    requires
        0 < f < 1000,
    ensures
        milli_fraction(f).len() <= 3,
        digits_value(milli_fraction(f)) * pow10((3 - milli_fraction(f).len()) as nat) == f,
{
    let d1 = f / 100;
    let d2 = (f / 10) % 10;
    let d3 = f % 10;
    lemma_digit_char_value(d1);
    lemma_digit_char_value(d2);
    lemma_digit_char_value(d3);
    let m = milli_fraction(f);
    assert(pow10(0) == 1);
    assert(pow10(1) == 10);
    assert(pow10(2) == 100);
    assert(f == d1 * 100 + d2 * 10 + d3);
    let s1 = seq![digit_char(d1)];
    assert(digits_value(Seq::<char>::empty()) == 0);
    assert(s1.drop_last() =~= Seq::<char>::empty());
    assert(digits_value(s1) == d1);
    if d3 != 0 {
        let s2 = seq![digit_char(d1), digit_char(d2)];
        assert(s2.drop_last() =~= s1);
        assert(digits_value(s2) == d1 * 10 + d2);
        assert(m.drop_last() =~= s2);
        assert(digits_value(m) == (d1 * 10 + d2) * 10 + d3);
    } else if d2 != 0 {
        assert(m.drop_last() =~= s1);
        assert(digits_value(m) == d1 * 10 + d2);
    } else {
        assert(m =~= s1);
    }
}

/// Read back as a decimal number of seconds, the seconds text of `ms` milliseconds gives `ms`
/// again: it is `ms / 1000` exactly, with nothing rounded or wrapped.
pub proof fn lemma_seconds_text_reads_back(ms: int)
    ensures
        text_millis(seconds_text(ms)) == ms,
{
    let a: nat = if ms < 0 { (-ms) as nat } else { ms as nat };
    let sign: Seq<char> = if ms < 0 { seq!['-'] } else { Seq::empty() };
    let whole = decimal(a / 1000);
    lemma_decimal_reads_back(a / 1000);
    let t = seconds_text(ms);
    let body = if a % 1000 == 0 { whole } else { whole + seq!['.'] + milli_fraction(a % 1000) };
    assert(t =~= sign + body);
    assert(body[0] == whole[0]);
    assert(digit_value(whole[0]) < 10);
    if ms < 0 {
        assert(t[0] == '-');
        assert(t.skip(1) =~= body);
    } else {
        assert(t =~= body);
        assert(t[0] != '-');
    }
    if a % 1000 == 0 {
        lemma_point_index_none(whole);
        assert(pow10(0) == 1);
        assert(pow10(1) == 10);
        assert(pow10(2) == 100);
        assert(pow10(3) == 1000);
        assert(digits_value(Seq::<char>::empty()) == 0);
    } else {
        let mf = milli_fraction(a % 1000);
        lemma_point_index_after_digits(whole, mf);
        assert(body.take(whole.len() as int) =~= whole);
        assert(body.skip(whole.len() as int + 1) =~= mf);
        lemma_milli_fraction_reads_back(a % 1000);
    }
}

proof fn lemma_zeros_then_digits(z: nat, d: Seq<char>)
    ensures
        digits_value(Seq::new(z, |i: int| '0') + d) == digits_value(d),
    decreases d.len(), z,
{
    let zs = Seq::new(z, |i: int| '0');
    if d.len() == 0 {
        assert(zs + d =~= zs);
        if z > 0 {
            assert(zs.drop_last() =~= Seq::new((z - 1) as nat, |i: int| '0'));
            lemma_zeros_then_digits((z - 1) as nat, d);
            assert(Seq::new((z - 1) as nat, |i: int| '0') + d =~= Seq::new((z - 1) as nat, |i: int| '0'));
        }
    } else {
        lemma_zeros_then_digits(z, d.drop_last());
        assert((zs + d).drop_last() =~= zs + d.drop_last());
    }
}

/// A zero-padded number has at least the asked width, is all digits, and reads back as the
/// number; it is no longer than the width or the number's own digits.
pub proof fn lemma_zero_padded_reads_back(n: nat, width: nat)
    ensures
        all_digits(zero_padded(n, width)),
        zero_padded(n, width).len() >= width,
        zero_padded(n, width).len() >= 1,
        zero_padded(n, width).len() == if decimal(n).len() < width {
            width
        } else {
            decimal(n).len()
        },
        digits_value(zero_padded(n, width)) == n,
{
    lemma_decimal_reads_back(n);
    let d = decimal(n);
    if d.len() < width {
        let z = (width - d.len()) as nat;
        lemma_zeros_then_digits(z, d);
        let p = zero_padded(n, width);
        assert forall|i: int| 0 <= i < p.len() implies #[trigger] digit_value(p[i]) < 10 by {
            if i >= z {
                assert(p[i] == d[i - z]);
            }
        }
    }
}

/// The start-time stamp is month, day, year, hour, minute and second, each zero-padded to its
/// width and reading back as its value, joined by `/`, `/`, a space, `:` and `:`; a negative year
/// carries a minus sign first.
pub proof fn lemma_start_stamp_fields(
    month: nat,
    day: nat,
    year: int,
    hour: nat,
    minute: nat,
    second: nat,
)
    ensures
        exists|mo: Seq<char>, d: Seq<char>, y: Seq<char>, h: Seq<char>, mi: Seq<char>, se: Seq<char>|
            {
                &&& #[trigger] start_stamp(month, day, year, hour, minute, second) == mo + seq!['/']
                    + d + seq!['/'] + y + seq![' '] + h + seq![':'] + mi + seq![':'] + se
                &&& all_digits(mo) && mo.len() >= 2 && digits_value(mo) == month
                &&& all_digits(d) && d.len() >= 2 && digits_value(d) == day
                &&& all_digits(h) && h.len() >= 2 && digits_value(h) == hour
                &&& all_digits(mi) && mi.len() >= 2 && digits_value(mi) == minute
                &&& all_digits(se) && se.len() >= 2 && digits_value(se) == second
                &&& y.len() >= 4
                &&& year >= 0 ==> all_digits(y) && digits_value(y) == year
                &&& year < 0 ==> y[0] == '-' && all_digits(y.skip(1)) && digits_value(y.skip(1))
                    == -year
            },
{
    lemma_zero_padded_reads_back(month, 2);
    lemma_zero_padded_reads_back(day, 2);
    lemma_zero_padded_reads_back(hour, 2);
    lemma_zero_padded_reads_back(minute, 2);
    lemma_zero_padded_reads_back(second, 2);
    let y = signed_zero_padded(year, 4);
    if year >= 0 {
        lemma_zero_padded_reads_back(year as nat, 4);
    } else {
        lemma_zero_padded_reads_back((-year) as nat, 3);
        assert(y.skip(1) =~= zero_padded((-year) as nat, 3));
    }
    assert(start_stamp(month, day, year, hour, minute, second) == zero_padded(month, 2) + seq!['/']
        + zero_padded(day, 2) + seq!['/'] + y + seq![' '] + zero_padded(hour, 2) + seq![':']
        + zero_padded(minute, 2) + seq![':'] + zero_padded(second, 2));
}

} // verus!
