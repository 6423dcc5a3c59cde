//! Unsigned numbers written in digits: an optional `+`, then digits of the
//! radix, upper or lower case; and the writing of a number in lower case
//! digits, padded to a width.

use vstd::prelude::*;

verus! {

/// The value of `c` read as a digit of any radix up to 36.
pub open spec fn digit_value(c: char) -> Option<nat> {
    let u = c as u32;
    if 48 <= u <= 57 {
        Some((u - 48) as nat)
    } else if 97 <= u <= 122 {
        Some((u - 97 + 10) as nat)
    } else if 65 <= u <= 90 {
        Some((u - 65 + 10) as nat)
    } else {
        None
    }
}

/// `c` is a digit of the radix.
pub open spec fn is_digit(c: char, radix: nat) -> bool {
    digit_value(c) matches Some(d) && d < radix
}

/// Every character of `s` is a digit of the radix.
pub open spec fn all_digits(s: Seq<char>, radix: nat) -> bool {
    forall|i: int| 0 <= i < s.len() ==> is_digit(#[trigger] s[i], radix)
}

/// The number that the digits `s` write in the radix, most significant
/// digit first.
pub open spec fn digits_value(s: Seq<char>, radix: nat) -> nat
    decreases s.len(),
{
    if s.len() == 0 {
        0
    } else {
        digits_value(s.drop_last(), radix) * radix + match digit_value(s.last()) {
            Some(d) => d,
            None => 0,
        }
    }
}

/// `s` without its sign, where it starts with `+`.
pub open spec fn unsigned(s: Seq<char>) -> Seq<char> {
    if s.len() > 0 && s[0] == '+' {
        s.drop_first()
    } else {
        s
    }
}

/// The number that `s` writes in the radix, where `s` is an optional `+`
/// followed by at least one digit and nothing else, and the number is at
/// most `max`.
pub open spec fn parse_number(s: Seq<char>, radix: nat, max: nat) -> Option<nat> {
    let digits = unsigned(s);
    if digits.len() > 0 && all_digits(digits, radix) && digits_value(digits, radix) <= max {
        Some(digits_value(digits, radix))
    } else {
        None
    }
}

/// The lower case digit that writes `d`.
pub open spec fn digit_char(d: nat) -> char {
    if d < 10 {
        (48 + d) as u8 as char
    } else {
        (97 + d - 10) as u8 as char
    }
}

/// The digits that write `n` in the radix, without leading zeros.
pub open spec fn digits_of(n: nat, radix: nat) -> Seq<char>
    decreases n,
{
    if n < radix || radix < 2 {
        seq![digit_char(n)]
    } else {
        proof {
            lemma_div_smaller(n, radix);
        }
        digits_of(n / radix, radix).push(digit_char(n % radix))
    }
}

/// `s` after as many copies of `c` as bring it to `width` characters.
pub open spec fn pad_start(s: Seq<char>, c: char, width: nat) -> Seq<char> {
    if s.len() >= width {
        s
    } else {
        Seq::new((width - s.len()) as nat, |i: int| c) + s
    }
}

/// `s` before as many copies of `c` as bring it to `width` characters.
pub open spec fn pad_end(s: Seq<char>, c: char, width: nat) -> Seq<char> {
    if s.len() >= width {
        s
    } else {
        s + Seq::new((width - s.len()) as nat, |i: int| c)
    }
}

pub proof fn lemma_div_smaller(n: nat, radix: nat)
    requires
        2 <= radix <= n,
    ensures
        n / radix < n,
        n == (n / radix) * radix + n % radix,
        n % radix < radix,
{
    assert(n / radix < n && n == (n / radix) * radix + n % radix && n % radix < radix)
        by (nonlinear_arith)
        requires
            2 <= radix <= n,
    ;
}

/// A digit character reads as the digit it writes.
pub proof fn lemma_digit_char(d: nat)
    requires
        d < 16,
    ensures
        digit_value(digit_char(d)) == Some(d),
        digit_char(d) != '+',
        digit_char(d) != ' ',
{
}

/// The value of a text is at least the value of each of its prefixes.
pub proof fn lemma_value_prefix(s: Seq<char>, k: int, radix: nat)
    requires
        0 <= k <= s.len(),
        radix >= 1,
    ensures
        digits_value(s.take(k), radix) <= digits_value(s, radix),
    decreases s.len() - k,
{
    if k == s.len() {
        assert(s.take(k) =~= s);
    } else {
        let front = s.drop_last();
        lemma_value_prefix(front, k, radix);
        assert(front.take(k) =~= s.take(k));
        let v = digits_value(front, radix);
        assert(v * radix >= v) by (nonlinear_arith)
            requires
                radix >= 1,
                v >= 0,
        ;
    }
}

/// One more digit at the end multiplies the value by the radix and adds the
/// digit.
pub proof fn lemma_value_push(s: Seq<char>, c: char, radix: nat)
    requires
        digit_value(c) is Some,
    ensures
        digits_value(s.push(c), radix) == digits_value(s, radix) * radix + digit_value(c)->0,
{
    assert(s.push(c).drop_last() =~= s);
}

/// Zeros in front of digits change neither that they are digits nor their
/// value.
pub proof fn lemma_leading_zeros(zeros: nat, s: Seq<char>, radix: nat)
    requires
        radix >= 2,
    ensures
        digits_value(Seq::new(zeros, |i: int| '0') + s, radix) == digits_value(s, radix),
        all_digits(s, radix) ==> all_digits(Seq::new(zeros, |i: int| '0') + s, radix),
    decreases s.len(), zeros,
{
    let z = Seq::new(zeros, |i: int| '0');
    if s.len() > 0 {
        lemma_leading_zeros(zeros, s.drop_last(), radix);
        assert((z + s).drop_last() =~= z + s.drop_last());
        assert((z + s).last() == s.last());
    } else if zeros > 0 {
        let fewer = Seq::new((zeros - 1) as nat, |i: int| '0');
        lemma_leading_zeros((zeros - 1) as nat, s, radix);
        assert((z + s).drop_last() =~= fewer + s);
        assert((z + s).last() == '0');
        assert(digit_value('0') == Some(0nat));
        assert(digits_value(fewer + s, radix) == 0);
        assert(digits_value(z + s, radix) == 0 * radix + 0);
    } else {
        assert(z + s =~= s);
    }
    if all_digits(s, radix) {
        assert forall|i: int| 0 <= i < (z + s).len() implies is_digit(
            #[trigger] (z + s)[i],
            radix,
        ) by {
            if i >= zeros {
                assert((z + s)[i] == s[i - zeros]);
            }
        }
    }
}

/// The digits of a number are digits of the radix, at least one, without
/// sign or whitespace, and they write that number.
pub proof fn lemma_digits_of(n: nat, radix: nat)
    requires
        2 <= radix <= 16,
    ensures
        digits_of(n, radix).len() >= 1,
        all_digits(digits_of(n, radix), radix),
        digits_value(digits_of(n, radix), radix) == n,
        forall|i: int|
            0 <= i < digits_of(n, radix).len() ==> (#[trigger] digits_of(n, radix)[i]) != '+'
                && digits_of(n, radix)[i] != ' ',
    decreases n,
{
    if n < radix {
        lemma_digit_char(n);
        lemma_value_push(Seq::empty(), digit_char(n), radix);
        assert(Seq::<char>::empty().push(digit_char(n)) =~= seq![digit_char(n)]);
        assert(digits_value(Seq::empty(), radix) * radix == 0) by (nonlinear_arith)
            requires
                digits_value(Seq::empty(), radix) == 0,
        ;
    } else {
        lemma_div_smaller(n, radix);
        lemma_digits_of(n / radix, radix);
        lemma_digit_char(n % radix);
        lemma_value_push(digits_of(n / radix, radix), digit_char(n % radix), radix);
    }
}

/// A number written in digits and padded with zeros in front reads back as
/// itself.
pub proof fn lemma_number_round_trip(n: nat, radix: nat, width: nat, max: nat)
    requires
        2 <= radix <= 16,
        n <= max,
    ensures
        parse_number(pad_start(digits_of(n, radix), '0', width), radix, max) == Some(n),
{
    let digits = digits_of(n, radix);
    lemma_digits_of(n, radix);
    let text = pad_start(digits, '0', width);
    if digits.len() < width {
        lemma_leading_zeros((width - digits.len()) as nat, digits, radix);
    }
    assert(text[0] != '+');
}

fn digit_of(c: char, radix: u64) -> (r: Option<u64>)
    ensures
        r matches Some(d) ==> is_digit(c, radix as nat) && digit_value(c) == Some(d as nat),
        r is None ==> !is_digit(c, radix as nat),
{
    let u = c as u32;
    let d: u64 = if 48 <= u && u <= 57 {
        (u - 48) as u64
    } else if 97 <= u && u <= 122 {
        (u - 97 + 10) as u64
    } else if 65 <= u && u <= 90 {
        (u - 65 + 10) as u64
    } else {
        return None;
    };
    if d < radix {
        Some(d)
    } else {
        None
    }
}

/// Reads an unsigned number of at most `max` from all of `s`.
pub fn parse_radix(s: &[char], radix: u64, max: u64) -> (r: Option<u64>)
    requires
        2 <= radix <= 36,
    ensures
        r matches Some(v) ==> parse_number(s@, radix as nat, max as nat) == Some(v as nat),
        r is None ==> parse_number(s@, radix as nat, max as nat) is None,
{
    let start: usize = if s.len() > 0 && s[0] == '+' {
        1
    } else {
        0
    };
    let ghost digits = unsigned(s@);
    assert(digits =~= s@.skip(start as int));
    if start == s.len() {
        return None;
    }
    let mut acc: u64 = 0;
    let mut i: usize = start;
    assert(digits.take(0) =~= Seq::<char>::empty());
    while i < s.len()
        invariant
            2 <= radix <= 36,
            start <= i <= s@.len(),
            digits == s@.skip(start as int),
            digits == unsigned(s@),
            all_digits(digits.take(i - start), radix as nat),
            acc == digits_value(digits.take(i - start), radix as nat),
            acc <= max,
        decreases s@.len() - i,
    {
        let ghost seen = digits.take(i - start);
        let ghost more = digits.take(i - start + 1);
        assert(more.drop_last() =~= seen);
        assert(more.last() == s@[i as int]);
        let d = match digit_of(s[i], radix) {
            Some(d) => d,
            None => {
                assert(!is_digit(digits[i - start], radix as nat));
                return None;
            },
        };
        proof {
            lemma_value_prefix(digits, i - start + 1, radix as nat);
            assert(digits_value(more, radix as nat) == acc * radix + d);
        }
        let shifted = match acc.checked_mul(radix) {
            Some(v) => v,
            None => {
                return None;
            },
        };
        let next = match shifted.checked_add(d) {
            Some(v) => v,
            None => {
                return None;
            },
        };
        if next > max {
            return None;
        }
        assert forall|j: int| 0 <= j < more.len() implies is_digit(
            #[trigger] more[j],
            radix as nat,
        ) by {
            if j < seen.len() {
                assert(more[j] == seen[j]);
            }
        }
        acc = next;
        i += 1;
    }
    assert(digits.take(i - start) =~= digits);
    Some(acc)
}

/// Appends the digits of `n` in the radix to `out`.
pub fn write_digits(n: u64, radix: u64, out: &mut Vec<char>)
    requires
        2 <= radix <= 16,
    ensures
        final(out)@ == old(out)@ + digits_of(n as nat, radix as nat),
    decreases n,
{
    if n >= radix {
        proof {
            lemma_div_smaller(n as nat, radix as nat);
        }
        write_digits(n / radix, radix, out);
    }
    let d = (n % radix) as u8;
    let c = if d < 10 {
        (48 + d) as char
    } else {
        (97 + d - 10) as char
    };
    assert(c == digit_char((n % radix) as nat));
    out.push(c);
    proof {
        let (value, base) = (n as nat, radix as nat);
        if n >= radix {
            assert(digits_of(value, base) == digits_of(value / base, base).push(
                digit_char(value % base),
            ));
            assert(out@ =~= old(out)@ + digits_of(value / base, base).push(c));
        } else {
            assert(value % base == value) by (nonlinear_arith)
                requires
                    value < base,
            ;
            assert(out@ =~= old(out)@ + seq![c]);
        }
    }
}

/// Appends `count` copies of `c` to `out`.
pub fn write_repeated(c: char, count: usize, out: &mut Vec<char>)
    ensures
        final(out)@ == old(out)@ + Seq::new(count as nat, |i: int| c),
{
    let mut done: usize = 0;
    while done < count
        invariant
            done <= count,
            out@ == old(out)@ + Seq::new(done as nat, |i: int| c),
        decreases count - done,
    {
        out.push(c);
        done += 1;
        assert(out@ =~= old(out)@ + Seq::new(done as nat, |i: int| c));
    }
}

/// Appends the digits of `n`, after as many copies of `pad` as bring them to
/// `width` characters.
pub fn write_padded_start(n: u64, radix: u64, pad: char, width: usize, out: &mut Vec<char>)
    requires
        2 <= radix <= 16,
    ensures
        final(out)@ == old(out)@ + pad_start(digits_of(n as nat, radix as nat), pad, width as nat),
{
    let mut digits: Vec<char> = Vec::new();
    write_digits(n, radix, &mut digits);
    if digits.len() < width {
        write_repeated(pad, width - digits.len(), out);
    }
    out.append(&mut digits);
    assert(out@ =~= old(out)@ + pad_start(digits_of(n as nat, radix as nat), pad, width as nat));
}

/// Appends the digits of `n`, before as many copies of `pad` as bring them to
/// `width` characters.
pub fn write_padded_end(n: u64, radix: u64, pad: char, width: usize, out: &mut Vec<char>)
    requires
        2 <= radix <= 16,
    ensures
        final(out)@ == old(out)@ + pad_end(digits_of(n as nat, radix as nat), pad, width as nat),
{
    let mut digits: Vec<char> = Vec::new();
    write_digits(n, radix, &mut digits);
    let written = digits.len();
    out.append(&mut digits);
    if written < width {
        write_repeated(pad, width - written, out);
    }
    assert(out@ =~= old(out)@ + pad_end(digits_of(n as nat, radix as nat), pad, width as nat));
}

} // verus!
