//! Numbers as text, and text in columns.

use vstd::prelude::*;
use vstd::string::*;

verus! {

/// The character of a decimal digit.
pub open spec fn digit_char(d: int) -> char {
    (0x30 + d) as char
}

/// The decimal digits of a number, without leading zeros.
pub open spec fn digits(n: nat) -> Seq<char>
    decreases n,
{
    if n < 10 {
        seq![digit_char(n as int)]
    } else {
        digits(n / 10).push(digit_char((n % 10) as int))
    }
}

/// A number in decimal, with a sign when it is negative.
pub open spec fn decimal(i: int) -> Seq<char> {
    if i < 0 {
        seq!['-'] + digits((-i) as nat)
    } else {
        digits(i as nat)
    }
}

/// The same character `n` times.
pub open spec fn repeated(c: char, n: int) -> Seq<char> {
    Seq::new(
        if n > 0 {
            n as nat
        } else {
            0
        },
        |i: int| c,
    )
}

/// Text at the right of a column of `width` characters.
pub open spec fn right_aligned(s: Seq<char>, width: int) -> Seq<char> {
    repeated(' ', width - s.len()) + s
}

/// Text at the left of a column of `width` characters.
pub open spec fn left_aligned(s: Seq<char>, width: int) -> Seq<char> {
    s + repeated(' ', width - s.len())
}

/// A number filled up with zeros to `width` characters; the sign counts, and
/// stands before the zeros.
pub open spec fn zero_padded(i: int, width: int) -> Seq<char> {
    if i < 0 {
        seq!['-'] + repeated('0', width - 1 - digits((-i) as nat).len()) + digits((-i) as nat)
    } else {
        repeated('0', width - digits(i as nat).len()) + digits(i as nat)
    }
}

/// The character of a hexadecimal digit, in lower case.
pub open spec fn hex_char(d: int) -> char {
    if d < 10 {
        (0x30 + d) as char
    } else {
        (0x57 + d) as char
    }
}

/// The two hexadecimal digits of a byte.
pub open spec fn hex_byte(b: u8) -> Seq<char> {
    seq![hex_char(b as int / 16), hex_char(b as int % 16)]
}

/// The hexadecimal digits of bytes.
pub open spec fn hex(bytes: Seq<u8>) -> Seq<char>
    decreases bytes.len(),
{
    if bytes.len() == 0 {
        seq![]
    } else {
        hex(bytes.drop_last()) + hex_byte(bytes.last())
    }
}

fn digit(d: u8) -> (c: char)
    requires
        d < 10,
    ensures
        c == digit_char(d as int),
{
    (0x30 + d) as char
}

/// Appends the decimal digits of a number.
pub fn push_digits(out: &mut String, n: u64)
    ensures
        final(out)@ == old(out)@ + digits(n as nat),
    decreases n,
{
    if n < 10 {
        out.push(digit(n as u8));
        assert(out@ =~= old(out)@ + digits(n as nat));
    } else {
        push_digits(out, n / 10);
        out.push(digit((n % 10) as u8));
        assert(out@ =~= old(out)@ + digits(n as nat));
    }
}

/// The absolute value of a number.
pub fn magnitude(n: i64) -> (m: u64)
    ensures
        m == if n < 0 {
            -n
        } else {
            n as int
        },
{
    if n < 0 {
        (-(n + 1)) as u64 + 1
    } else {
        n as u64
    }
}

/// A number that is not negative, in decimal.
pub fn unsigned_text(n: u64) -> (text: String)
    ensures
        text@ == decimal(n as int),
{
    let mut text = String::new();
    push_digits(&mut text, n);
    assert(text@ =~= digits(n as nat));
    text
}

/// A number in decimal.
pub fn signed_text(n: i64) -> (text: String)
    ensures
        text@ == decimal(n as int),
{
    let mut text = String::new();
    if n < 0 {
        text.push('-');
    }
    push_digits(&mut text, magnitude(n));
    assert(text@ =~= decimal(n as int));
    text
}

/// Appends a character `n` times.
pub fn push_repeated(out: &mut String, c: char, n: usize)
    ensures
        final(out)@ == old(out)@ + repeated(c, n as int),
{
    let ghost before = out@;
    assert(before + repeated(c, 0) =~= before);
    for k in 0..n
        invariant
            out@ == before + repeated(c, k as int),
    {
        out.push(c);
        assert(out@ =~= before + repeated(c, k + 1));
    }
}

/// Appends text at the right of a column.
pub fn push_right(out: &mut String, s: &str, width: usize)
    ensures
        final(out)@ == old(out)@ + right_aligned(s@, width as int),
{
    let ghost before = out@;
    let len: usize = s.unicode_len();
    if len < width {
        push_repeated(out, ' ', width - len);
    }
    out.append(s);
    assert(out@ =~= before + right_aligned(s@, width as int));
}

/// Appends text at the left of a column.
pub fn push_left(out: &mut String, s: &str, width: usize)
    ensures
        final(out)@ == old(out)@ + left_aligned(s@, width as int),
{
    let ghost before = out@;
    let len: usize = s.unicode_len();
    out.append(s);
    if len < width {
        push_repeated(out, ' ', width - len);
    }
    assert(out@ =~= before + left_aligned(s@, width as int));
}

/// Appends a number filled up with zeros.
pub fn push_zero_padded(out: &mut String, n: i64, width: usize)
    requires
        width > 0,
    ensures
        final(out)@ == old(out)@ + zero_padded(n as int, width as int),
{
    let ghost before = out@;
    let number = unsigned_text(magnitude(n));
    let len: usize = number.as_str().unicode_len();
    let room: usize = if n < 0 {
        width - 1
    } else {
        width
    };
    if n < 0 {
        out.push('-');
    }
    if len < room {
        push_repeated(out, '0', room - len);
    }
    out.append(number.as_str());
    assert(out@ =~= before + zero_padded(n as int, width as int));
}

fn hex_digit(d: u8) -> (c: char)
    requires
        d < 16,
    ensures
        c == hex_char(d as int),
{
    if d < 10 {
        (0x30 + d) as char
    } else {
        (0x57 + d) as char
    }
}

/// Appends the two hexadecimal digits of a byte.
pub fn push_hex_byte(out: &mut String, b: u8)
    ensures
        final(out)@ == old(out)@ + hex_byte(b),
{
    out.push(hex_digit(b / 16));
    out.push(hex_digit(b % 16));
    assert(out@ =~= old(out)@ + hex_byte(b));
}

/// The hexadecimal digits of bytes.
pub fn hex_text(bytes: &[u8]) -> (text: String)
    ensures
        text@ == hex(bytes@),
{
    let mut text = String::new();
    for k in 0..bytes.len()
        invariant
            text@ == hex(bytes@.take(k as int)),
    {
        push_hex_byte(&mut text, bytes[k]);
        assert(bytes@.take(k + 1).drop_last() =~= bytes@.take(k as int));
    }
    assert(bytes@.take(bytes@.len() as int) =~= bytes@);
    text
}

/// The value of a decimal digit.
pub open spec fn digit_value(c: char) -> int {
    c as int - 0x30
}

/// The number that decimal digits stand for.
pub open spec fn number_of(s: Seq<char>) -> int
    decreases s.len(),
{
    if s.len() == 0 {
        0
    } else {
        10 * number_of(s.drop_last()) + digit_value(s.last())
    }
}

/// The digits of a number stand for that number: two numbers never have the same
/// digits.
pub proof fn lemma_digits_value(n: nat)
    ensures
        number_of(digits(n)) == n,
        digits(n).len() > 0,
        forall|i: int| 0 <= i < digits(n).len() ==> '0' <= #[trigger] digits(n)[i] <= '9',
    decreases n,
{
    if n >= 10 {
        lemma_digits_value(n / 10);
        assert(digits(n).drop_last() =~= digits(n / 10));
    } else {
        assert(digits(n).drop_last() =~= Seq::<char>::empty());
        assert(number_of(digits(n).drop_last()) == 0);
    }
}

/// Hexadecimal text has two digits for every byte, and two byte strings with the
/// same hexadecimal text are the same.
pub proof fn lemma_hex_injective(a: Seq<u8>, b: Seq<u8>)
    ensures
        hex(a).len() == 2 * a.len(),
        hex(a) == hex(b) ==> a == b,
    decreases a.len(),
{
    lemma_hex_len(a);
    lemma_hex_len(b);
    if hex(a) == hex(b) {
        if a.len() > 0 {
            let x = hex(a.drop_last());
            let y = hex(b.drop_last());
            lemma_hex_len(a.drop_last());
            lemma_hex_len(b.drop_last());
            assert(x =~= hex(a).take(2 * (a.len() - 1)));
            assert(y =~= hex(b).take(2 * (a.len() - 1)));
            lemma_hex_injective(a.drop_last(), b.drop_last());
            let n = a.len() as int;
            assert(hex(a)[2 * n - 2] == hex_byte(a.last())[0]);
            assert(hex(b)[2 * n - 2] == hex_byte(b.last())[0]);
            assert(hex(a)[2 * n - 1] == hex_byte(a.last())[1]);
            assert(hex(b)[2 * n - 1] == hex_byte(b.last())[1]);
            assert(a.last() == b.last());
            assert(a =~= a.drop_last().push(a.last()));
            assert(b =~= b.drop_last().push(b.last()));
        } else {
            assert(a =~= b);
        }
    }
}

proof fn lemma_hex_len(a: Seq<u8>)
    ensures
        hex(a).len() == 2 * a.len(),
    decreases a.len(),
{
    if a.len() > 0 {
        lemma_hex_len(a.drop_last());
    }
}

/// The value of a hexadecimal digit.
pub open spec fn hex_value(c: char) -> int {
    if '0' <= c <= '9' {
        c as int - '0' as int
    } else {
        c as int - 'a' as int + 10
    }
}

/// The hexadecimal digits of every byte stand in its place, and say the byte.
pub proof fn lemma_hex_reads_back(bytes: Seq<u8>, i: int)
    requires
        0 <= i < bytes.len(),
    ensures
        hex(bytes).len() == 2 * bytes.len(),
        hex_value(hex(bytes)[2 * i]) * 16 + hex_value(hex(bytes)[2 * i + 1]) == bytes[i],
        forall|j: int|
            0 <= j < hex(bytes).len() ==> '0' <= #[trigger] hex(bytes)[j] <= '9' || 'a'
                <= hex(bytes)[j] <= 'f',
    decreases bytes.len(),
{
    lemma_hex_len(bytes);
    lemma_hex_len(bytes.drop_last());
    let rest = bytes.drop_last();
    let last = hex_byte(bytes.last());
    assert(hex(bytes) == hex(rest) + last);
    if rest.len() > 0 {
        lemma_hex_reads_back(
            rest,
            if i < rest.len() {
                i
            } else {
                0
            },
        );
    }
    assert forall|j: int| 0 <= j < hex(bytes).len() implies '0' <= #[trigger] hex(bytes)[j] <= '9'
        || 'a' <= hex(bytes)[j] <= 'f' by {
        if j < hex(rest).len() {
            assert(hex(bytes)[j] == hex(rest)[j]);
        } else {
            assert(hex(bytes)[j] == last[j - hex(rest).len()]);
        }
    }
    if i == rest.len() {
        assert(hex(bytes)[2 * i] == last[0] && hex(bytes)[2 * i + 1] == last[1]);
    } else {
        assert(hex(bytes)[2 * i] == hex(rest)[2 * i] && hex(bytes)[2 * i + 1] == hex(rest)[2 * i
            + 1]);
    }
}

/// A whole number in decimal: its digits say its value, without a leading zero, and a
/// sign stands before them exactly if it is negative.
pub proof fn lemma_decimal_reads_back(n: int)
    ensures
        n >= 0 ==> number_of(decimal(n)) == n && decimal(n)[0] != '-',
        n < 0 ==> decimal(n)[0] == '-' && number_of(decimal(n).skip(1)) == -n,
        n > 0 ==> decimal(n)[0] != '0',
        decimal(n).len() > 0,
        forall|i: int| 1 <= i < decimal(n).len() ==> '0' <= #[trigger] decimal(n)[i] <= '9',
        '0' <= decimal(n)[0] <= '9' || decimal(n)[0] == '-',
{
    let m: nat = if n < 0 {
        (-n) as nat
    } else {
        n as nat
    };
    lemma_digits_value(m);
    lemma_no_leading_zero(m);
    if n < 0 {
        assert(decimal(n).skip(1) =~= digits(m));
        assert forall|i: int| 1 <= i < decimal(n).len() implies '0' <= #[trigger] decimal(n)[i]
            <= '9' by {
            assert(decimal(n)[i] == digits(m)[i - 1]);
        }
    } else {
        assert('0' <= digits(m)[0] <= '9');
    }
}

proof fn lemma_no_leading_zero(n: nat)
    ensures
        digits(n).len() > 0,
        n > 0 ==> digits(n)[0] != '0',
    decreases n,
{
    if n >= 10 {
        lemma_no_leading_zero(n / 10);
    }
}

/// Padding adds blanks on one side until the width is reached, and takes nothing away.
pub proof fn lemma_padding(s: Seq<char>, width: int)
    ensures
        right_aligned(s, width).len() == if s.len() < width {
            width
        } else {
            s.len() as int
        },
        left_aligned(s, width).len() == right_aligned(s, width).len(),
        right_aligned(s, width).skip(right_aligned(s, width).len() - s.len()) == s,
        left_aligned(s, width).take(s.len() as int) == s,
        forall|i: int|
            0 <= i < right_aligned(s, width).len() - s.len() ==> #[trigger] right_aligned(s, width)[i]
                == ' ',
        forall|i: int|
            s.len() <= i < left_aligned(s, width).len() ==> #[trigger] left_aligned(s, width)[i]
                == ' ',
{
    let r = right_aligned(s, width);
    assert(r.skip(r.len() - s.len()) =~= s);
    assert(left_aligned(s, width).take(s.len() as int) =~= s);
}

/// A number padded with zeroes is as wide as asked, where its digits and sign fit, and
/// has the same value.
pub proof fn lemma_zero_padding(n: nat, width: int)
    ensures
        zero_padded(n as int, width).len() == if digits(n).len() < width {
            width
        } else {
            digits(n).len() as int
        },
        number_of(zero_padded(n as int, width)) == n,
        n > 0 ==> zero_padded(-(n as int), width) == seq!['-'] + zero_padded(n as int, width - 1),
{
    lemma_digits_value(n);
    let k = width - digits(n).len();
    lemma_zeroes(repeated('0', k), digits(n));
    if n > 0 {
        assert(zero_padded(-(n as int), width) =~= seq!['-'] + zero_padded(n as int, width - 1));
    }
}

proof fn lemma_zeroes(zeroes: Seq<char>, s: Seq<char>)
    requires
        forall|i: int| 0 <= i < zeroes.len() ==> #[trigger] zeroes[i] == '0',
    ensures
        number_of(zeroes + s) == number_of(s),
    decreases zeroes.len() + s.len(),
{
    if s.len() > 0 {
        assert((zeroes + s).drop_last() =~= zeroes + s.drop_last());
        lemma_zeroes(zeroes, s.drop_last());
    } else if zeroes.len() > 0 {
        assert(zeroes + s =~= zeroes);
        let rest = zeroes.drop_last();
        lemma_zeroes(rest, s);
        assert(rest + s =~= rest);
    }
}

/// Numbers below one hundred have at most two digits, and those below ten thousand at
/// most four.
pub proof fn lemma_digit_count(n: nat)
    ensures
        n < 100 ==> digits(n).len() <= 2,
        n < 10_000 ==> digits(n).len() <= 4,
{
    reveal_with_fuel(digits, 4);
}

/// A number padded with zeroes is made of digits, and of a sign before them.
pub proof fn lemma_zero_padded_chars(n: int, width: int)
    ensures
        forall|i: int|
            0 <= i < zero_padded(n, width).len() ==> '0' <= #[trigger] zero_padded(n, width)[i]
                <= '9' || zero_padded(n, width)[i] == '-',
{
    let m: nat = if n < 0 {
        (-n) as nat
    } else {
        n as nat
    };
    lemma_digits_value(m);
    let w = if n < 0 {
        width - 1
    } else {
        width
    };
    let zeroes = repeated('0', w - digits(m).len());
    let tail = zeroes + digits(m);
    assert forall|i: int| 0 <= i < tail.len() implies '0' <= #[trigger] tail[i] <= '9' by {
        if i >= zeroes.len() {
            assert(tail[i] == digits(m)[i - zeroes.len()]);
        }
    }
    if n < 0 {
        assert(zero_padded(n, width) =~= seq!['-'] + tail);
        assert forall|i: int| 0 <= i < zero_padded(n, width).len() implies '0'
            <= #[trigger] zero_padded(n, width)[i] <= '9' || zero_padded(n, width)[i] == '-' by {
            if i > 0 {
                assert(zero_padded(n, width)[i] == tail[i - 1]);
            }
        }
    } else {
        assert(zero_padded(n, width) =~= tail);
    }
}

} // verus!
