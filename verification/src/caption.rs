//! The caption drawn on every frame of a dump: the frame's timestamp as
//! `HH:MM:SS.mmm`, and where on the frame it goes.
use vstd::prelude::*;
use vstd::string::StringExecFns;

verus! {

/// The character of the decimal digit `d`.
pub open spec fn digit_char(d: int) -> char {
    (48 + d) as char
}

/// The decimal numeral of `n`, without leading zeros.
pub open spec fn decimal(n: nat) -> Seq<char>
    decreases n,
{
    if n < 10 {
        seq![digit_char(n as int)]
    } else {
        decimal(n / 10).push(digit_char((n % 10) as int))
    }
}

/// `s` right-aligned in a field of `width` characters filled with `'0'`
/// (a longer `s` is left as it is).
pub open spec fn zero_pad(s: Seq<char>, width: int) -> Seq<char> {
    if s.len() < width {
        Seq::new((width - s.len()) as nat, |i: int| '0') + s
    } else {
        s
    }
}

/// The seconds of a timestamp, `millis` thousandths of a second with the
/// given sign, written with three decimals in a zero-filled field of six.
pub open spec fn seconds_text(negative: bool, millis: nat) -> Seq<char> {
    let sign: Seq<char> = if negative { seq!['-'] } else { Seq::empty() };
    zero_pad(sign + decimal(millis / 1000) + seq!['.'] + zero_pad(decimal(millis % 1000), 3), 6)
}

/// The caption of a frame: hours and minutes on two digits at least, then
/// the seconds with three decimals, separated by colons.
pub open spec fn timestamp_text(hours: nat, minutes: nat, negative: bool, millis: nat) -> Seq<char> {
    zero_pad(decimal(hours), 2) + seq![':'] + zero_pad(decimal(minutes), 2) + seq![':'] + seconds_text(negative, millis)
}

/// Ten to the power `k`.
pub open spec fn pow10(k: nat) -> nat
    decreases k,
{
    if k == 0 { 1 } else { 10 * pow10((k - 1) as nat) }
}

/// A number below `10^k` has at most `k` decimal digits.
pub proof fn lemma_decimal_len(n: nat, k: nat)
    requires
        k >= 1,
        n < pow10(k),
    ensures
        1 <= decimal(n).len() <= k,
    decreases n,
{
    if n >= 10 {
        let k1 = (k - 1) as nat;
        assert(k1 >= 1) by {
            if k1 == 0 {
                reveal_with_fuel(pow10, 2);
                assert(pow10(1) == 10);
            }
        }
        assert(pow10(k) == 10 * pow10(k1));
        assert(n / 10 < pow10(k1)) by (nonlinear_arith)
            requires n < 10 * pow10(k1);
        lemma_decimal_len(n / 10, k1);
    }
}

proof fn lemma_u64_decimal_len(n: u64)
    ensures
        1 <= decimal(n as nat).len() <= 20,
{
    reveal_with_fuel(pow10, 21);
    assert(pow10(20) == 100000000000000000000);
    lemma_decimal_len(n as nat, 20);
}

fn digit_str(d: u64) -> (s: &'static str)
    requires
        d < 10,
    ensures
        s@ == seq![digit_char(d as int)],
{
    proof {
        reveal_strlit("0");
        reveal_strlit("1");
        reveal_strlit("2");
        reveal_strlit("3");
        reveal_strlit("4");
        reveal_strlit("5");
        reveal_strlit("6");
        reveal_strlit("7");
        reveal_strlit("8");
        reveal_strlit("9");
    }
    match d {
        0 => "0",
        1 => "1",
        2 => "2",
        3 => "3",
        4 => "4",
        5 => "5",
        6 => "6",
        7 => "7",
        8 => "8",
        _ => "9",
    }
}

fn decimal_len(n: u64) -> (len: usize)
    ensures
        len == decimal(n as nat).len(),
        1 <= len <= 20,
    decreases n,
{
    proof {
        lemma_u64_decimal_len(n);
    }
    if n < 10 {
        1
    } else {
        decimal_len(n / 10) + 1
    }
}

fn push_decimal(out: &mut String, n: u64)
    ensures
        final(out)@ == old(out)@ + decimal(n as nat),
    decreases n,
{
    if n >= 10 {
        push_decimal(out, n / 10);
    }
    out.append(digit_str(n % 10));
    proof {
        if n >= 10 {
            assert(old(out)@ + decimal(n as nat) =~= old(out)@ + decimal((n / 10) as nat) + seq![digit_char((n % 10) as int)]);
        }
    }
}

fn push_zeros(out: &mut String, count: usize)
    ensures
        final(out)@ == old(out)@ + Seq::new(count as nat, |i: int| '0'),
{
    proof {
        reveal_strlit("0");
    }
    let mut i: usize = 0;
    while i < count
        invariant
            i <= count,
            out@ == old(out)@ + Seq::new(i as nat, |j: int| '0'),
        decreases count - i,
    {
        proof {
            reveal_strlit("0");
        }
        out.append("0");
        i = i + 1;
        assert(out@ =~= old(out)@ + Seq::new(i as nat, |j: int| '0'));
    }
}

fn push_padded_decimal(out: &mut String, n: u64, width: usize)
    ensures
        final(out)@ == old(out)@ + zero_pad(decimal(n as nat), width as int),
{
    let len = decimal_len(n);
    if len < width {
        push_zeros(out, width - len);
    }
    push_decimal(out, n);
    assert(out@ =~= old(out)@ + zero_pad(decimal(n as nat), width as int));
}

/// `c` is one of the characters `'0'` to `'9'`.
pub open spec fn is_digit(c: char) -> bool {
    48 <= (c as int) && (c as int) <= 57
}

/// Every character of `s` is a decimal digit.
pub open spec fn all_digits(s: Seq<char>) -> bool {
    forall|i: int| 0 <= i < s.len() ==> is_digit(#[trigger] s[i])
}

/// Every character of `s` is `'0'`.
pub open spec fn all_zeros(s: Seq<char>) -> bool {
    forall|i: int| 0 <= i < s.len() ==> #[trigger] s[i] == '0'
}

/// The number that the digit string `s` reads as, most significant digit
/// first.
pub open spec fn numeral_value(s: Seq<char>) -> int
    decreases s.len(),
{
    if s.len() == 0 {
        0
    } else {
        numeral_value(s.drop_last()) * 10 + ((s.last() as int) - 48)
    }
}

/// `s` writes `v` in decimal, filled on the left with `'0'` up to `width`
/// characters and no further: all digits, reading as `v`, at least `width`
/// long, and with no leading `'0'` when it is longer than `width`.
pub open spec fn filled_numeral(s: Seq<char>, v: int, width: int) -> bool {
    &&& all_digits(s)
    &&& numeral_value(s) == v
    &&& s.len() >= width
    &&& s.len() > width ==> s[0] != '0'
}

/// `label` is the caption of the timestamp (`hours`, `minutes`, and
/// `millis` thousandths of a second with the given sign) cut into its
/// parts: the hours field, `':'`, the minutes field, `':'`, then the seconds
/// field made of filling zeros, the sign, the whole seconds, `'.'` and the
/// thousandths.  Hours and minutes are filled to two digits, the whole
/// seconds are written without filling, the thousandths on exactly three
/// digits, and the filling zeros bring zeros, sign and whole seconds up to
/// two characters.
pub open spec fn caption_parts(
    label: Seq<char>,
    parts: (Seq<char>, Seq<char>, Seq<char>, Seq<char>, Seq<char>),
    hours: int,
    minutes: int,
    negative: bool,
    millis: int,
) -> bool {
    let (h, m, z, w, f) = parts;
    let sign: Seq<char> = if negative { seq!['-'] } else { Seq::empty() };
    &&& label == h + seq![':'] + m + seq![':'] + z + sign + w + seq!['.'] + f
    &&& filled_numeral(h, hours, 2)
    &&& filled_numeral(m, minutes, 2)
    &&& all_zeros(z)
    &&& z.len() + sign.len() + w.len() == (if sign.len() + w.len() < 2 { 2 } else { sign.len() + w.len() })
    &&& filled_numeral(w, millis / 1000, 1)
    &&& filled_numeral(f, millis % 1000, 3)
    &&& f.len() == 3
}

/// `label` is the caption of the given timestamp.
pub open spec fn is_caption_of(label: Seq<char>, hours: int, minutes: int, negative: bool, millis: int) -> bool {
    exists|parts: (Seq<char>, Seq<char>, Seq<char>, Seq<char>, Seq<char>)|
        #[trigger] caption_parts(label, parts, hours, minutes, negative, millis)
}

proof fn lemma_decimal_numeral(n: nat)
    ensures
        all_digits(decimal(n)),
        numeral_value(decimal(n)) == n,
        decimal(n).len() >= 1,
        decimal(n).len() > 1 ==> n >= 10,
        n >= 1 ==> decimal(n)[0] != '0',
    decreases n,
{
    if n < 10 {
        assert(decimal(n) =~= seq![digit_char(n as int)]);
        assert(decimal(n).drop_last() =~= Seq::<char>::empty());
        assert((digit_char(n as int) as int) == 48 + n);
        assert(numeral_value(Seq::<char>::empty()) == 0);
    } else {
        lemma_decimal_numeral(n / 10);
        let d = decimal(n / 10);
        assert(decimal(n) == d.push(digit_char((n % 10) as int)));
        assert(decimal(n).drop_last() =~= d);
        assert(decimal(n)[0] == d[0]);
        assert(all_digits(decimal(n))) by {
            assert forall|i: int| 0 <= i < decimal(n).len() implies is_digit(#[trigger] decimal(n)[i]) by {
                if i < d.len() {
                    assert(decimal(n)[i] == d[i]);
                }
            }
        }
        assert(n == (n / 10) * 10 + n % 10);
        assert((digit_char((n % 10) as int) as int) == 48 + n % 10);
        assert(decimal(n).last() == digit_char((n % 10) as int));
    }
}

proof fn lemma_zeros_value(z: Seq<char>)
    requires
        all_zeros(z),
    ensures
        numeral_value(z) == 0,
        all_digits(z),
    decreases z.len(),
{
    if z.len() > 0 {
        assert(z.drop_last().len() < z.len());
        assert(all_zeros(z.drop_last())) by {
            assert forall|i: int| 0 <= i < z.drop_last().len() implies #[trigger] z.drop_last()[i] == '0' by {
                assert(z.drop_last()[i] == z[i]);
            }
        }
        lemma_zeros_value(z.drop_last());
        assert(z.last() == '0');
    }
}

proof fn lemma_zeros_before(z: Seq<char>, s: Seq<char>)
    requires
        all_zeros(z),
    ensures
        numeral_value(z + s) == numeral_value(s),
    decreases s.len(),
{
    if s.len() == 0 {
        assert(z + s =~= z);
        lemma_zeros_value(z);
    } else {
        assert((z + s).drop_last() =~= z + s.drop_last());
        assert((z + s).last() == s.last());
        lemma_zeros_before(z, s.drop_last());
    }
}

proof fn lemma_zero_pad_numeral(n: nat, width: int)
    requires
        width >= 1,
    ensures
        filled_numeral(zero_pad(decimal(n), width), n as int, width),
        zero_pad(decimal(n), width).len() == (if decimal(n).len() < width { width } else { decimal(n).len() as int }),
{
    lemma_decimal_numeral(n);
    let d = decimal(n);
    if d.len() < width {
        let z = Seq::new((width - d.len()) as nat, |i: int| '0');
        assert(all_zeros(z));
        lemma_zeros_before(z, d);
        lemma_zeros_value(z);
        let p = z + d;
        assert(zero_pad(d, width) == p);
        assert(all_digits(p)) by {
            assert forall|i: int| 0 <= i < p.len() implies is_digit(#[trigger] p[i]) by {
                if i < z.len() {
                    assert(p[i] == z[i]);
                } else {
                    assert(p[i] == d[i - z.len()]);
                }
            }
        }
    }
}

/// The caption law: `timestamp_text` is the caption of its timestamp as
/// `is_caption_of` cuts it, field by field (hours and minutes filled to two
/// digits and no further, whole seconds unfilled, three digits of
/// thousandths, the seconds field filled to six characters).
pub proof fn lemma_timestamp_text_is_caption(hours: nat, minutes: nat, negative: bool, millis: nat)
    ensures
        is_caption_of(timestamp_text(hours, minutes, negative, millis), hours as int, minutes as int, negative, millis as int),
{
    lemma_zero_pad_numeral(hours, 2);
    lemma_zero_pad_numeral(minutes, 2);
    lemma_zero_pad_numeral(millis / 1000, 1);
    lemma_zero_pad_numeral(millis % 1000, 3);
    reveal_with_fuel(pow10, 4);
    lemma_decimal_len(millis % 1000, 3);
    let h = zero_pad(decimal(hours), 2);
    let m = zero_pad(decimal(minutes), 2);
    let wd = decimal(millis / 1000);
    let w = zero_pad(wd, 1);
    assert(w == wd);
    let f = zero_pad(decimal(millis % 1000), 3);
    let sign: Seq<char> = if negative { seq!['-'] } else { Seq::empty() };
    let field = sign + wd + seq!['.'] + f;
    let z: Seq<char> = if field.len() < 6 { Seq::new((6 - field.len()) as nat, |i: int| '0') } else { Seq::empty() };
    assert(zero_pad(field, 6) =~= z + field);
    assert(all_zeros(z));
    let parts = (h, m, z, w, f);
    assert(timestamp_text(hours, minutes, negative, millis) =~= h + seq![':'] + m + seq![':'] + z + sign + w + seq!['.'] + f);
    assert(caption_parts(timestamp_text(hours, minutes, negative, millis), parts, hours as int, minutes as int, negative, millis as int));
}

/// The caption of a frame whose timestamp has the given hours, minutes
/// and seconds (`millis` thousandths, with the given sign), written as
/// `format!("{:0>2}:{:0>2}:{:0>6.3}", hours, minutes, seconds)` writes it.
pub fn timestamp_label(hours: u32, minutes: u32, negative: bool, millis: u64) -> (label: String)
    ensures
        label@ == timestamp_text(hours as nat, minutes as nat, negative, millis as nat),
        is_caption_of(label@, hours as int, minutes as int, negative, millis as int),
{
    proof {
        reveal_strlit(":");
        reveal_strlit(".");
        reveal_strlit("-");
    }
    let mut label = String::new();
    push_padded_decimal(&mut label, hours as u64, 2);
    label.append(":");
    push_padded_decimal(&mut label, minutes as u64, 2);
    label.append(":");
    let whole = millis / 1000;
    let frac = millis % 1000;
    let sign_len: usize = if negative { 1 } else { 0 };
    let field_len = sign_len + decimal_len(whole) + 4;
    proof {
        reveal_with_fuel(pow10, 4);
        assert(pow10(3) == 1000);
        lemma_decimal_len(frac as nat, 3);
    }
    assert(zero_pad(decimal(frac as nat), 3).len() == 3);
    let ghost before = label@;
    if field_len < 6 {
        push_zeros(&mut label, 6 - field_len);
    }
    if negative {
        label.append("-");
    }
    push_decimal(&mut label, whole);
    label.append(".");
    push_padded_decimal(&mut label, frac, 3);
    proof {
        let sign: Seq<char> = if negative { seq!['-'] } else { Seq::empty() };
        let field = sign + decimal(whole as nat) + seq!['.'] + zero_pad(decimal(frac as nat), 3);
        assert(field.len() == field_len);
        assert(label@ =~= before + zero_pad(field, 6));
        assert(label@ =~= timestamp_text(hours as nat, minutes as nat, negative, millis as nat));
        lemma_timestamp_text_is_caption(hours as nat, minutes as nat, negative, millis as nat);
    }
    label
}

/// `v` as a signed 32-bit value, read in two's complement as a cast does.
pub open spec fn signed_u32(v: u32) -> int {
    if v <= i32::MAX { v as int } else { v - 0x1_0000_0000 }
}

/// The cast law: `signed_u32(v)` is the one signed 32-bit value that
/// leaves the same remainder as `v` modulo `2^32`.
pub proof fn lemma_signed_u32(v: u32)
    ensures
        i32::MIN <= signed_u32(v) <= i32::MAX,
        (v - signed_u32(v)) % 0x1_0000_0000 == 0,
        v <= i32::MAX ==> signed_u32(v) == v,
{
    if v > i32::MAX {
        assert(v - signed_u32(v) == 0x1_0000_0000int);
    } else {
        assert(v - signed_u32(v) == 0int);
    }
}

/// Where the caption goes on a frame of the given size: its top-left
/// corner sits ten pixels (plus the caption's own size) in from the
/// frame's right and bottom edges.
pub fn caption_origin(width: u32, height: u32, text_width: i32, text_height: i32) -> (origin: (i32, i32))
    requires
        text_width + 10 <= i32::MAX,
        text_height + 10 <= i32::MAX,
        i32::MIN <= signed_u32(width) - (text_width + 10) <= i32::MAX,
        i32::MIN <= signed_u32(height) - (text_height + 10) <= i32::MAX,
    ensures
        origin.0 == signed_u32(width) - (text_width + 10),
        origin.1 == signed_u32(height) - (text_height + 10),
{
    (as_signed(width) - (text_width + 10), as_signed(height) - (text_height + 10))
}

fn as_signed(v: u32) -> (s: i32)
    ensures
        s == signed_u32(v),
{
    if v <= 0x7fff_ffff {
        v as i32
    } else {
        ((v - 0x8000_0000) as i32) + i32::MIN
    }
}

} // verus!
