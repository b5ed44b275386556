//! Small pieces of text.

use vstd::prelude::*;
use vstd::utf8::encode_utf8;

verus! {

/// `n` in decimal, without leading zeros.
pub open spec fn digits(n: nat) -> Seq<char>
    decreases n,
{
    if n < 10 {
        seq![digit(n)]
    } else {
        digits(n / 10).push(digit(n % 10))
    }
}

/// The digit for a number below sixteen, letters in upper case.
pub open spec fn digit(n: nat) -> char {
    if n < 10 {
        (48 + n) as char
    } else {
        (55 + n) as char
    }
}

/// `n` in upper-case hexadecimal, with as many digits as are asked for at
/// least.
pub open spec fn hex(n: nat, least: nat) -> Seq<char>
    decreases n, least,
{
    if n < 16 && least <= 1 {
        seq![digit(n)]
    } else {
        hex(
            n / 16,
            if least > 0 {
                (least - 1) as nat
            } else {
                0
            },
        ).push(digit(n % 16))
    }
}

/// Whether two strings hold the same characters.
#[must_use]
pub fn same(a: &str, b: &str) -> (r: bool)
    ensures
        r == (a@ == b@),
{
    let n: usize = a.unicode_len();
    if n != b.unicode_len() {
        return false;
    }
    let mut i: usize = 0;
    while i < n
        invariant
            i <= n,
            n == a@.len(),
            n == b@.len(),
            forall|k: int| 0 <= k < i ==> a@[k] == b@[k],
        decreases n - i,
    {
        if a.get_char(i) != b.get_char(i) {
            assert(a@[i as int] != b@[i as int]);
            return false;
        }
        i = i + 1;
    }
    assert(a@ =~= b@);
    true
}

/// The characters of a string.
#[must_use]
pub fn letters(s: &str) -> (v: Vec<char>)
    ensures
        v@ == s@,
{
    let mut v: Vec<char> = Vec::new();
    let mut i: usize = 0;
    let n: usize = s.unicode_len();
    while i < n
        invariant
            i <= n,
            n == s@.len(),
            v@ == s@.take(i as int),
        decreases n - i,
    {
        v.push(s.get_char(i));
        i = i + 1;
        assert(s@.take(i as int) =~= s@.take(i - 1).push(s@[i - 1]));
    }
    assert(s@.take(n as int) =~= s@);
    v
}

/// One text occurs inside another.
pub open spec fn occurs(text: Seq<char>, part: Seq<char>) -> bool {
    exists|i: int|
        0 <= i <= text.len() - part.len() && #[trigger] text.subrange(i, i + part.len()) == part
}

/// Whether `part` occurs in `text`.
#[must_use]
pub fn contains(text: &str, part: &str) -> (r: bool)
    ensures
        r == occurs(text@, part@),
{
    let n: usize = text.unicode_len();
    let m: usize = part.unicode_len();
    if m > n {
        return false;
    }
    let last: usize = n - m;
    let mut i: usize = 0;
    while i < last
        invariant
            n == text@.len(),
            m == part@.len(),
            m <= n,
            last == n - m,
            i <= last,
            forall|k: int| 0 <= k < i ==> #[trigger] text@.subrange(k, k + m) != part@,
        decreases last - i,
    {
        if same(text.substring_char(i, i + m), part) {
            return true;
        }
        i = i + 1;
    }
    same(text.substring_char(last, last + m), part)
}

fn digit_text(d: u32) -> (s: &'static str)
    requires
        d < 16,
    ensures
        s@ == seq![digit(d as nat)],
{
    let all: &'static str = "0123456789ABCDEF";
    proof {
        reveal_strlit("0123456789ABCDEF");
    }
    let s: &'static str = all.substring_char(d as usize, d as usize + 1);
    assert(s@ =~= seq![digit(d as nat)]);
    s
}

/// Appends a number in decimal.
pub fn push_number(out: &mut String, n: u32)
    ensures
        final(out)@ == old(out)@ + digits(n as nat),
    decreases n,
{
    if n >= 10 {
        push_number(out, n / 10);
    }
    out.append(digit_text(n % 10));
    assert(out@ =~= old(out)@ + digits(n as nat));
}

/// Appends a number in hexadecimal.
pub fn push_hex(out: &mut String, n: u32, least: u32)
    ensures
        final(out)@ == old(out)@ + hex(n as nat, least as nat),
    decreases n, least,
{
    if n >= 16 || least > 1 {
        push_hex(
            out,
            n / 16,
            if least > 0 {
                least - 1
            } else {
                0
            },
        );
    }
    out.append(digit_text(n % 16));
    assert(out@ =~= old(out)@ + hex(n as nat, least as nat));
}

/// UTF-8 is put together piece by piece.
pub proof fn lemma_utf8_concat(a: Seq<char>, b: Seq<char>)
    ensures
        encode_utf8(a + b) == encode_utf8(a) + encode_utf8(b),
    decreases a.len(),
{
    if a.len() == 0 {
        assert(a + b =~= b);
        assert(encode_utf8(a) + encode_utf8(b) =~= encode_utf8(b));
    } else {
        assert((a + b).drop_first() =~= a.drop_first() + b);
        lemma_utf8_concat(a.drop_first(), b);
        assert(encode_utf8(a + b) =~= encode_utf8(a) + encode_utf8(b));
    }
}

/// A text occurs in another exactly where that is it with something before it
/// and something behind it.
pub proof fn law_a_part_occurs_inside_the_whole(
    before: Seq<char>,
    part: Seq<char>,
    after: Seq<char>,
    text: Seq<char>,
)
    ensures
        occurs(before + part + after, part),
        occurs(text, part) ==> exists|a: Seq<char>, b: Seq<char>| text == #[trigger] (a + part + b),
        text.len() < part.len() ==> !occurs(text, part),
{
    let whole = before + part + after;
    let i = before.len() as int;
    assert(whole.subrange(i, i + part.len()) =~= part);
    if occurs(text, part) {
        let k = choose|k: int|
            0 <= k <= text.len() - part.len() && #[trigger] text.subrange(k, k + part.len())
                == part;
        let a = text.take(k);
        let b = text.skip(k + part.len());
        assert(text =~= a + part + b);
    }
}

/// The number that a run of hexadecimal digits in upper case stands for.
pub open spec fn hex_number(s: Seq<char>) -> nat
    decreases s.len(),
{
    if s.len() == 0 {
        0
    } else {
        let c = s.last();
        hex_number(s.drop_last()) * 16 + (if '0' <= c <= '9' {
            (c as u32 - 48) as nat
        } else {
            (c as u32 - 55) as nat
        })
    }
}

/// A number in hexadecimal reads back as that number, has as many digits as were
/// asked for, and starts with a zero only to fill them up.
pub proof fn law_hexadecimal_reads_back(n: nat, least: nat)
    ensures
        hex_number(hex(n, least)) == n,
        hex(n, least).len() >= least,
        hex(n, least).len() >= 1,
        n < 16 ==> hex(n, least).len() == (if least > 1 {
            least
        } else {
            1
        }),
        hex(n, least).len() > least && n > 0 ==> hex(n, least)[0] != '0',
        forall|i: int|
            0 <= i < hex(n, least).len() ==> {
                let c = #[trigger] hex(n, least)[i];
                '0' <= c <= '9' || 'A' <= c <= 'F'
            },
    decreases n, least,
{
    reveal_with_fuel(hex_number, 2);
    if n < 16 && least <= 1 {
        let s = seq![digit(n)];
        assert(s.drop_last() =~= Seq::<char>::empty());
    } else {
        let less = if least > 0 {
            (least - 1) as nat
        } else {
            0
        };
        law_hexadecimal_reads_back(n / 16, less);
        let front = hex(n / 16, less);
        let s = front.push(digit(n % 16));
        assert(s.drop_last() =~= front);
        assert(s[0] == front[0]);
    }
}

} // verus!
