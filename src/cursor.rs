//! Pagination cursors: an ordering value written as a signed decimal number.
use vstd::prelude::*;

verus! {

/// The character of a decimal digit `d < 10`.
pub open spec fn digit_char(d: nat) -> char {
    ((d + 48) as u32) as char
}

/// Whether `c` is one of `0` to `9`.
pub open spec fn is_digit(c: char) -> bool {
    '0' <= c && c <= '9'
}

/// The value of the decimal digit `c`.
pub open spec fn digit_value(c: char) -> int {
    (c as u32) as int - 48
}

/// The decimal digits of `n`, most significant first, without leading zeros.
pub open spec fn decimal(n: nat) -> Seq<char>
    decreases n,
{
    if n < 10 {
        seq![digit_char(n)]
    } else {
        decimal(n / 10).push(digit_char(n % 10))
    }
}

/// The number that a sequence of decimal digits denotes.
pub open spec fn digits_value(s: Seq<char>) -> int
    decreases s.len(),
{
    if s.len() == 0 {
        0
    } else {
        digits_value(s.drop_last()) * 10 + digit_value(s.last())
    }
}

pub open spec fn all_digits(s: Seq<char>) -> bool {
    forall|i: int| 0 <= i < s.len() ==> is_digit(#[trigger] s[i])
}

/// The text of the cursor for the ordering value `x`.
pub open spec fn cursor_text(x: int) -> Seq<char> {
    if x < 0 {
        seq!['-'] + decimal((-x) as nat)
    } else {
        decimal(x as nat)
    }
}

/// The digits of a cursor text, after its optional leading minus sign.
pub open spec fn cursor_digits(s: Seq<char>) -> Seq<char> {
    if s.len() > 0 && s[0] == '-' {
        s.drop_first()
    } else {
        s
    }
}

/// The signed number that a cursor text denotes, whether or not it is in range.
pub open spec fn cursor_number(s: Seq<char>) -> int {
    if s.len() > 0 && s[0] == '-' {
        -digits_value(s.drop_first())
    } else {
        digits_value(s)
    }
}

/// A cursor text is an optional minus sign and one or more decimal digits whose
/// value fits in an `i64`.
pub open spec fn is_cursor(s: Seq<char>) -> bool {
    &&& cursor_digits(s).len() > 0
    &&& all_digits(cursor_digits(s))
    &&& i64::MIN <= cursor_number(s) <= i64::MAX
}

proof fn lemma_decimal(n: nat)
    ensures
        decimal(n).len() > 0,
        all_digits(decimal(n)),
        decimal(n)[0] != '-',
        digits_value(decimal(n)) == n,
    decreases n,
{
    if n < 10 {
        assert(digits_value(decimal(n).drop_last()) == 0) by {
            assert(decimal(n).drop_last() =~= Seq::<char>::empty());
        }
    } else {
        lemma_decimal(n / 10);
        let s = decimal(n);
        assert(s.drop_last() =~= decimal(n / 10));
        assert forall|i: int| 0 <= i < s.len() implies is_digit(#[trigger] s[i]) by {
            if i < s.len() - 1 {
                assert(s[i] == decimal(n / 10)[i]);
            }
        }
    }
}

proof fn lemma_digits_value_nonneg(s: Seq<char>)
    requires
        all_digits(s),
    ensures
        digits_value(s) >= 0,
    decreases s.len(),
{
    if s.len() > 0 {
        assert(all_digits(s.drop_last())) by {
            assert forall|i: int| 0 <= i < s.drop_last().len() implies is_digit(
                #[trigger] s.drop_last()[i],
            ) by {
                assert(s.drop_last()[i] == s[i]);
            }
        }
        lemma_digits_value_nonneg(s.drop_last());
    }
}

/// Appending digits never lowers the value of a digit sequence.
proof fn lemma_digits_value_prefix(s: Seq<char>, i: int)
    requires
        all_digits(s),
        0 <= i <= s.len(),
    ensures
        digits_value(s.take(i)) <= digits_value(s),
    decreases s.len() - i,
{
    if i < s.len() {
        lemma_digits_value_prefix(s, i + 1);
        let t = s.take(i + 1);
        assert(t.drop_last() =~= s.take(i));
        assert(all_digits(s.take(i))) by {
            assert forall|k: int| 0 <= k < s.take(i).len() implies is_digit(
                #[trigger] s.take(i)[k],
            ) by {
                assert(s.take(i)[k] == s[k]);
            }
        }
        lemma_digits_value_nonneg(s.take(i));
        assert(is_digit(s[i]));
    } else {
        assert(s.take(i) =~= s);
    }
}

/// Decoding the cursor of a value gives that value back.
pub proof fn lemma_cursor_round_trip(x: int)
    requires
        i64::MIN <= x <= i64::MAX,
    ensures
        is_cursor(cursor_text(x)),
        cursor_number(cursor_text(x)) == x,
{
    if x < 0 {
        let d = decimal((-x) as nat);
        lemma_decimal((-x) as nat);
        assert((seq!['-'] + d).drop_first() =~= d);
        assert((seq!['-'] + d)[0] == '-');
    } else {
        lemma_decimal(x as nat);
    }
}

fn digit_str(d: u64) -> (r: &'static str)
    requires
        d < 10,
    ensures
        r@ == seq![digit_char(d as nat)],
{
    proof {
        reveal_strlit("0");
        reveal_strlit("1");
        reveal_strlit("2");
        reveal_strlit("3");
        reveal_strlit("4");
        reveal_strlit("5");
        reveal_strlit("6");
        reveal_strlit("7");
        reveal_strlit("8");
        reveal_strlit("9");
    }
    let r = match d {
        0 => "0",
        1 => "1",
        2 => "2",
        3 => "3",
        4 => "4",
        5 => "5",
        6 => "6",
        7 => "7",
        8 => "8",
        _ => "9",
    };
    assert(r@ =~= seq![digit_char(d as nat)]);
    r
}

fn push_decimal(n: u64, out: &mut String)
    ensures
        final(out)@ == old(out)@ + decimal(n as nat),
    decreases n,
{
    if n >= 10 {
        push_decimal(n / 10, out);
    }
    out.append(digit_str(n % 10));
    proof {
        if n < 10 {
            assert(n % 10 == n);
        }
    }
}

/// The cursor of the ordering value `x`: its signed decimal text.
pub fn encode_cursor(x: i64) -> (r: String)
    ensures
        r@ == cursor_text(x as int),
{
    let mut out = String::new();
    if x < 0 {
        out.append("-");
        proof {
            reveal_strlit("-");
        }
        let m: u64 = ((-(x + 1)) as u64) + 1;
        push_decimal(m, &mut out);
    } else {
        push_decimal(x as u64, &mut out);
    }
    assert(out@ =~= cursor_text(x as int));
    out
}

/// The ordering value of a cursor, or `None` where the text is no cursor.
pub fn decode_cursor(s: &str) -> (r: Option<i64>)
    ensures
        r is Some <==> is_cursor(s@),
        r matches Some(v) ==> v as int == cursor_number(s@),
{
    let n = s.unicode_len();
    let negative: bool = n > 0 && s.get_char(0) == '-';
    let start: usize = if negative { 1 } else { 0 };
    let ghost body = cursor_digits(s@);
    assert(body =~= s@.subrange(start as int, n as int));
    if start >= n {
        return None;
    }
    let limit: u128 = 0x8000_0000_0000_0000;
    let mut acc: u128 = 0;
    let mut i: usize = start;
    while i < n
        invariant
            start <= i <= n,
            n == s@.len(),
            body == s@.subrange(start as int, n as int),
            body == cursor_digits(s@),
            acc as int == digits_value(body.take(i - start)),
            acc <= limit,
            limit == 0x8000_0000_0000_0000,
            all_digits(body.take(i - start)),
        decreases n - i,
    {
        let c = s.get_char(i);
        assert(body[i - start] == s@[i as int]);
        if !('0' <= c && c <= '9') {
            assert(!is_digit(body[i - start]));
            assert(!all_digits(body));
            return None;
        }
        let ghost k = i - start;
        assert(body.take(k + 1).drop_last() =~= body.take(k));
        assert(body.take(k + 1).last() == c);
        assert(acc * 10 <= 0x8000_0000_0000_0000 * 10) by (nonlinear_arith)
            requires
                acc <= 0x8000_0000_0000_0000,
        ;
        acc = acc * 10 + ((c as u32) - 48) as u128;
        assert(all_digits(body.take(k + 1))) by {
            assert forall|j: int| 0 <= j < body.take(k + 1).len() implies is_digit(
                #[trigger] body.take(k + 1)[j],
            ) by {
                if j < k {
                    assert(body.take(k + 1)[j] == body.take(k)[j]);
                }
            }
        }
        i = i + 1;
        if acc > limit {
            proof {
                if all_digits(body) {
                    lemma_digits_value_prefix(body, i - start);
                }
            }
            return None;
        }
    }
    assert(body.take(n - start) =~= body);
    if negative {
        assert(s@[0] == '-');
        Some((0 - acc as i128) as i64)
    } else {
        if acc == limit {
            return None;
        }
        Some(acc as i64)
    }
}

} // verus!
