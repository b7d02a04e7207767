//! Text helpers: characters, digits, concatenation and byte order.

use vstd::prelude::*;
use vstd::string::*;

verus! {

/// `String::push`: the character is appended to what the string held.
pub assume_specification[ String::push ](s: &mut String, c: char)
    ensures
        final(s)@ == old(s)@.push(c),
;

/// The characters of a string.
pub fn chars_of(s: &str) -> (out: Vec<char>)
    ensures
        out@ == s@,
{
    let mut out: Vec<char> = Vec::new();
    for c in it: s.chars()
        invariant
            it.seq() == s@,
            out@ == s@.take(it.index() as int),
    {
        out.push(c);
        proof {
            assert(s@.take(it.index() as int).push(c) =~= s@.take(it.index() + 1));
        }
    }
    proof {
        assert(s@.take(s@.len() as int) =~= s@);
    }
    out
}

/// The string of the characters from `from` to `to`.
pub fn from_chars(chars: &[char], from: usize, to: usize) -> (out: String)
    requires
        from <= to <= chars@.len(),
    ensures
        out@ == chars@.subrange(from as int, to as int),
{
    let mut out = String::new();
    let mut i: usize = from;
    while i < to
        invariant
            from <= i <= to <= chars@.len(),
            out@ == chars@.subrange(from as int, i as int),
        decreases to - i,
    {
        out.push(chars[i]);
        i = i + 1;
        proof {
            assert(chars@.subrange(from as int, i as int) =~= chars@.subrange(
                from as int,
                i - 1,
            ).push(chars@[i - 1]));
        }
    }
    out
}

/// The two strings one after the other.
pub fn cat(a: &str, b: &str) -> (out: String)
    ensures
        out@ == a@ + b@,
{
    let mut out = a.to_owned();
    out.append(b);
    out
}

/// The three strings one after the other.
pub fn cat3(a: &str, b: &str, c: &str) -> (out: String)
    ensures
        out@ == a@ + b@ + c@,
{
    let mut out = cat(a, b);
    out.append(c);
    out
}

/// A run of `n` copies of one character.
pub open spec fn run_of(c: char, n: nat) -> Seq<char> {
    Seq::new(n, |i: int| c)
}

/// Writes a run of `n` copies of `c`.
pub fn repeat_char(c: char, n: usize) -> (out: String)
    ensures
        out@ == run_of(c, n as nat),
{
    let mut out = String::new();
    let mut i: usize = 0;
    proof {
        assert(run_of(c, 0) =~= Seq::<char>::empty());
    }
    while i < n
        invariant
            i <= n,
            out@ == run_of(c, i as nat),
        decreases n - i,
    {
        out.push(c);
        i = i + 1;
        proof {
            assert(run_of(c, i as nat) =~= run_of(c, (i - 1) as nat).push(c));
        }
    }
    out
}

/// The decimal digit of a value below ten.
pub open spec fn digit_char(d: nat) -> char {
    if d == 0 {
        '0'
    } else if d == 1 {
        '1'
    } else if d == 2 {
        '2'
    } else if d == 3 {
        '3'
    } else if d == 4 {
        '4'
    } else if d == 5 {
        '5'
    } else if d == 6 {
        '6'
    } else if d == 7 {
        '7'
    } else if d == 8 {
        '8'
    } else {
        '9'
    }
}

/// A number in decimal, without leading zeros.
pub open spec fn decimal_of(n: nat) -> Seq<char>
    decreases n,
{
    if n < 10 {
        seq![digit_char(n)]
    } else {
        decimal_of(n / 10).push(digit_char(n % 10))
    }
}

fn digit(d: u64) -> (c: char)
    requires
        d < 10,
    ensures
        c == digit_char(d as nat),
{
    if d == 0 {
        '0'
    } else if d == 1 {
        '1'
    } else if d == 2 {
        '2'
    } else if d == 3 {
        '3'
    } else if d == 4 {
        '4'
    } else if d == 5 {
        '5'
    } else if d == 6 {
        '6'
    } else if d == 7 {
        '7'
    } else if d == 8 {
        '8'
    } else {
        '9'
    }
}

/// Writes a number in decimal.
pub fn decimal(n: u64) -> (out: String)
    ensures
        out@ == decimal_of(n as nat),
    decreases n,
{
    if n < 10 {
        let mut out = String::new();
        out.push(digit(n));
        proof {
            assert(out@ =~= seq![digit_char(n as nat)]);
        }
        out
    } else {
        let mut out = decimal(n / 10);
        out.push(digit(n % 10));
        out
    }
}

/// The lower-case hexadecimal digit of a value below sixteen.
pub open spec fn hex_char(d: u64) -> char {
    if d == 10 {
        'a'
    } else if d == 11 {
        'b'
    } else if d == 12 {
        'c'
    } else if d == 13 {
        'd'
    } else if d == 14 {
        'e'
    } else if d == 15 {
        'f'
    } else {
        digit_char(d as nat)
    }
}

/// Sixteen hexadecimal digits, the most significant first.
pub open spec fn hex16_of(n: u64) -> Seq<char> {
    Seq::new(16, |i: int| hex_char((n >> ((60 - 4 * i) as u64)) & 15))
}

proof fn lemma_same_digit(m: u64, n: u64, i: int, shift: u64)
    requires
        hex16_of(m) == hex16_of(n),
        0 <= i < 16,
        shift == 60 - 4 * i,
    ensures
        (m >> shift) & 15 == (n >> shift) & 15,
{
    assert((m >> shift) & 15 < 16) by (bit_vector);
    assert((n >> shift) & 15 < 16) by (bit_vector);
    assert(hex16_of(m)[i] == hex_char((m >> shift) & 15));
    assert(hex16_of(n)[i] == hex_char((n >> shift) & 15));
}

/// Sixteen digits stand for one number.
pub proof fn lemma_hex16_distinct(m: u64, n: u64)
    requires
        hex16_of(m) == hex16_of(n),
    ensures
        m == n,
{
    lemma_same_digit(m, n, 0, 60);
    lemma_same_digit(m, n, 1, 56);
    lemma_same_digit(m, n, 2, 52);
    lemma_same_digit(m, n, 3, 48);
    lemma_same_digit(m, n, 4, 44);
    lemma_same_digit(m, n, 5, 40);
    lemma_same_digit(m, n, 6, 36);
    lemma_same_digit(m, n, 7, 32);
    lemma_same_digit(m, n, 8, 28);
    lemma_same_digit(m, n, 9, 24);
    lemma_same_digit(m, n, 10, 20);
    lemma_same_digit(m, n, 11, 16);
    lemma_same_digit(m, n, 12, 12);
    lemma_same_digit(m, n, 13, 8);
    lemma_same_digit(m, n, 14, 4);
    lemma_same_digit(m, n, 15, 0);
    assert(m == n) by (bit_vector)
        requires
            (m >> 60) & 15 == (n >> 60) & 15,
            (m >> 56) & 15 == (n >> 56) & 15,
            (m >> 52) & 15 == (n >> 52) & 15,
            (m >> 48) & 15 == (n >> 48) & 15,
            (m >> 44) & 15 == (n >> 44) & 15,
            (m >> 40) & 15 == (n >> 40) & 15,
            (m >> 36) & 15 == (n >> 36) & 15,
            (m >> 32) & 15 == (n >> 32) & 15,
            (m >> 28) & 15 == (n >> 28) & 15,
            (m >> 24) & 15 == (n >> 24) & 15,
            (m >> 20) & 15 == (n >> 20) & 15,
            (m >> 16) & 15 == (n >> 16) & 15,
            (m >> 12) & 15 == (n >> 12) & 15,
            (m >> 8) & 15 == (n >> 8) & 15,
            (m >> 4) & 15 == (n >> 4) & 15,
            (m >> 0) & 15 == (n >> 0) & 15,
    ;
}

fn hex_digit(d: u64) -> (c: char)
    requires
        d < 16,
    ensures
        c == hex_char(d),
{
    if d == 10 {
        'a'
    } else if d == 11 {
        'b'
    } else if d == 12 {
        'c'
    } else if d == 13 {
        'd'
    } else if d == 14 {
        'e'
    } else if d == 15 {
        'f'
    } else {
        digit(d)
    }
}

/// Writes a number as sixteen hexadecimal digits.
pub fn hex16(n: u64) -> (out: String)
    ensures
        out@ == hex16_of(n),
{
    let mut out = String::new();
    let mut i: u64 = 0;
    while i < 16
        invariant
            i <= 16,
            out@ == hex16_of(n).take(i as int),
        decreases 16 - i,
    {
        let d: u64 = (n >> (60 - 4 * i)) & 15;
        assert(d < 16) by (bit_vector)
            requires
                d == (n >> (60 - 4 * i) as u64) & 15,
        ;
        out.push(hex_digit(d));
        i = i + 1;
        proof {
            assert(hex16_of(n).take(i as int) =~= hex16_of(n).take(i - 1).push(hex_char(d)));
        }
    }
    proof {
        assert(hex16_of(n).take(16) =~= hex16_of(n));
    }
    out
}

/// Two hexadecimal digits for each byte, the high half first.
pub open spec fn hex_bytes_of(b: Seq<u8>) -> Seq<char> {
    Seq::new(
        2 * b.len(),
        |i: int|
            if i % 2 == 0 {
                hex_char((b[i / 2] / 16) as u64)
            } else {
                hex_char((b[i / 2] % 16) as u64)
            },
    )
}

/// Writes bytes as lower-case hexadecimal digits.
pub fn hex_bytes(b: &[u8]) -> (out: String)
    ensures
        out@ == hex_bytes_of(b@),
{
    let mut out = String::new();
    let mut i: usize = 0;
    while i < b.len()
        invariant
            i <= b@.len(),
            out@ == hex_bytes_of(b@).take(2 * i),
        decreases b@.len() - i,
    {
        out.push(hex_digit((b[i] / 16) as u64));
        out.push(hex_digit((b[i] % 16) as u64));
        i = i + 1;
        proof {
            let h = hex_bytes_of(b@);
            assert(h[2 * (i - 1)] == hex_char((b@[i - 1] / 16) as u64));
            assert(h[2 * (i - 1) + 1] == hex_char((b@[i - 1] % 16) as u64));
            assert(h.take(2 * i) =~= h.take(2 * (i - 1)).push(h[2 * (i - 1)]).push(
                h[2 * (i - 1) + 1],
            ));
        }
    }
    proof {
        assert(hex_bytes_of(b@).take(2 * b@.len() as int) =~= hex_bytes_of(b@));
    }
    out
}

/// White space, as Unicode has it.
pub open spec fn white(c: char) -> bool {
    ||| '\u{9}' <= c <= '\u{d}'
    ||| c == ' '
    ||| c == '\u{85}'
    ||| c == '\u{a0}'
    ||| c == '\u{1680}'
    ||| '\u{2000}' <= c <= '\u{200a}'
    ||| c == '\u{2028}'
    ||| c == '\u{2029}'
    ||| c == '\u{202f}'
    ||| c == '\u{205f}'
    ||| c == '\u{3000}'
}

/// Is the character white space?
pub fn is_white(c: char) -> (b: bool)
    ensures
        b == white(c),
{
    ('\u{9}' <= c && c <= '\u{d}') || c == ' ' || c == '\u{85}' || c == '\u{a0}' || c == '\u{1680}'
        || ('\u{2000}' <= c && c <= '\u{200a}') || c == '\u{2028}' || c == '\u{2029}' || c
        == '\u{202f}' || c == '\u{205f}' || c == '\u{3000}'
}

/// A text without the white space at its start.
pub open spec fn trimmed_start(s: Seq<char>) -> Seq<char>
    decreases s.len(),
{
    if s.len() > 0 && white(s[0]) {
        trimmed_start(s.drop_first())
    } else {
        s
    }
}

/// A text without the white space at its end.
pub open spec fn trimmed_end(s: Seq<char>) -> Seq<char>
    decreases s.len(),
{
    if s.len() > 0 && white(s.last()) {
        trimmed_end(s.drop_last())
    } else {
        s
    }
}

/// A text without the white space at its ends.
pub open spec fn trimmed(s: Seq<char>) -> Seq<char> {
    trimmed_end(trimmed_start(s))
}

/// The characters without the white space at their ends.
pub fn trim(s: &[char]) -> (r: Vec<char>)
    ensures
        r@ == trimmed(s@),
{
    let mut a: usize = 0;
    proof {
        assert(s@.skip(0) =~= s@);
    }
    while a < s.len() && is_white(s[a])
        invariant
            a <= s@.len(),
            trimmed_start(s@) == trimmed_start(s@.skip(a as int)),
        decreases s@.len() - a,
    {
        proof {
            assert(s@.skip(a as int)[0] == s@[a as int]);
            assert(s@.skip(a as int).drop_first() =~= s@.skip(a + 1));
        }
        a = a + 1;
    }
    proof {
        if a < s@.len() {
            assert(s@.skip(a as int)[0] == s@[a as int]);
        }
        assert(trimmed_start(s@) == s@.skip(a as int));
    }
    let mut b: usize = s.len();
    proof {
        assert(s@.subrange(a as int, b as int) =~= s@.skip(a as int));
    }
    while b > a && is_white(s[b - 1])
        invariant
            a <= b <= s@.len(),
            trimmed_end(s@.skip(a as int)) == trimmed_end(s@.subrange(a as int, b as int)),
        decreases b,
    {
        proof {
            assert(s@.subrange(a as int, b as int).last() == s@[b - 1]);
            assert(s@.subrange(a as int, b as int).drop_last() =~= s@.subrange(a as int, b - 1));
        }
        b = b - 1;
    }
    proof {
        if b > a {
            assert(s@.subrange(a as int, b as int).last() == s@[b - 1]);
        }
    }
    part(s, a, b)
}

/// The characters from `from` to `to`.
pub fn part(s: &[char], from: usize, to: usize) -> (r: Vec<char>)
    requires
        from <= to <= s@.len(),
    ensures
        r@ == s@.subrange(from as int, to as int),
{
    let mut r: Vec<char> = Vec::new();
    let mut i: usize = from;
    while i < to
        invariant
            from <= i <= to <= s@.len(),
            r@ == s@.subrange(from as int, i as int),
        decreases to - i,
    {
        r.push(s[i]);
        i = i + 1;
        proof {
            assert(s@.subrange(from as int, i as int) =~= s@.subrange(from as int, i - 1).push(
                s@[i - 1],
            ));
        }
    }
    r
}

/// The text of characters.
pub fn text_of(s: &[char]) -> (r: String)
    ensures
        r@ == s@,
{
    proof {
        assert(s@.subrange(0, s@.len() as int) =~= s@);
    }
    from_chars(s, 0, s.len())
}

/// A text without the white space at its ends.
pub fn trim_text(s: &str) -> (r: String)
    ensures
        r@ == trimmed(s@),
{
    let chars = chars_of(s);
    let t = trim(&chars);
    text_of(&t)
}

/// Trimming takes the white space at the ends of a text off, all of it and nothing
/// else.
pub proof fn law_trimming_takes_white_space_off(
    front: Seq<char>,
    s: Seq<char>,
    back: Seq<char>,
)
    requires
        forall|i: int| 0 <= i < front.len() ==> white(#[trigger] front[i]),
        forall|i: int| 0 <= i < back.len() ==> white(#[trigger] back[i]),
        s.len() > 0 ==> !white(s[0]) && !white(s.last()),
    ensures
        trimmed(front + s + back) == s,
{
    let all = front + s + back;
    if s.len() == 0 {
        assert forall|i: int| 0 <= i < all.len() implies white(#[trigger] all[i]) by {
            if i < front.len() {
                assert(all[i] == front[i]);
            } else {
                assert(all[i] == back[i - front.len()]);
            }
        }
        assert(all =~= all + Seq::empty());
        lemma_trimmed_start(all, Seq::empty());
        assert(s =~= Seq::empty());
    } else {
        assert(all =~= front + (s + back));
        assert((s + back)[0] == s[0]);
        lemma_trimmed_start(front, s + back);
        lemma_trimmed_end(s, back);
    }
}

proof fn lemma_trimmed_start(front: Seq<char>, s: Seq<char>)
    requires
        forall|i: int| 0 <= i < front.len() ==> white(#[trigger] front[i]),
        s.len() > 0 ==> !white(s[0]),
    ensures
        trimmed_start(front + s) == s,
    decreases front.len(),
{
    if front.len() == 0 {
        assert(front + s =~= s);
    } else {
        assert(white(front[0]));
        assert((front + s)[0] == front[0]);
        assert((front + s).drop_first() =~= front.drop_first() + s);
        assert forall|i: int| 0 <= i < front.drop_first().len() implies white(
            #[trigger] front.drop_first()[i],
        ) by {
            assert(white(front[i + 1]));
        }
        lemma_trimmed_start(front.drop_first(), s);
    }
}

proof fn lemma_trimmed_end(s: Seq<char>, back: Seq<char>)
    requires
        forall|i: int| 0 <= i < back.len() ==> white(#[trigger] back[i]),
        s.len() > 0 ==> !white(s.last()),
    ensures
        trimmed_end(s + back) == s,
    decreases back.len(),
{
    if back.len() == 0 {
        assert(s + back =~= s);
    } else {
        assert(white(back[back.len() - 1]));
        assert((s + back).last() == back.last());
        assert((s + back).drop_last() =~= s + back.drop_last());
        assert forall|i: int| 0 <= i < back.drop_last().len() implies white(
            #[trigger] back.drop_last()[i],
        ) by {
            assert(white(back[i]));
        }
        lemma_trimmed_end(s, back.drop_last());
    }
}

/// The value that a decimal digit stands for.
pub open spec fn digit_value(c: char) -> int {
    c as int - '0' as int
}

/// The number that decimal digits stand for, the most significant first.
pub open spec fn decimal_value(s: Seq<char>) -> int
    decreases s.len(),
{
    if s.len() == 0 {
        0
    } else {
        10 * decimal_value(s.drop_last()) + digit_value(s.last())
    }
}

/// A number in decimal is made of decimal digits that stand for it, the first of which
/// is no zero unless it is the only one.
pub proof fn law_decimals_stand_for_their_number(n: nat)
    ensures
        decimal_value(decimal_of(n)) == n,
        decimal_of(n).len() > 0,
        forall|i: int| 0 <= i < decimal_of(n).len() ==> '0' <= #[trigger] decimal_of(n)[i] <= '9',
        n >= 10 ==> decimal_of(n).len() > 1 && decimal_of(n)[0] != '0',
        n > 0 ==> decimal_of(n)[0] != '0',
    decreases n,
{
    if n >= 10 {
        law_decimals_stand_for_their_number(n / 10);
        let init = decimal_of(n / 10);
        assert(decimal_of(n).drop_last() =~= init);
        assert(decimal_of(n)[0] == init[0]);
        assert forall|i: int| 0 <= i < decimal_of(n).len() implies '0' <= #[trigger] decimal_of(
            n,
        )[i] <= '9' by {
            if i < init.len() {
                assert(decimal_of(n)[i] == init[i]);
            }
        }
    } else {
        assert(decimal_of(n).drop_last() =~= Seq::<char>::empty());
        assert(decimal_value(Seq::<char>::empty()) == 0);
    }
}

/// The value that a hexadecimal digit in lower case stands for.
pub open spec fn hex_value(c: char) -> int {
    if '0' <= c <= '9' {
        c as int - '0' as int
    } else if 'a' <= c <= 'f' {
        10 + c as int - 'a' as int
    } else {
        -1
    }
}

/// Bytes in hexadecimal take two digits each, which stand for the byte.
pub proof fn law_hex_stands_for_its_bytes(b: Seq<u8>, i: int)
    requires
        0 <= i < b.len(),
    ensures
        hex_bytes_of(b).len() == 2 * b.len(),
        0 <= hex_value(hex_bytes_of(b)[2 * i]) < 16,
        0 <= hex_value(hex_bytes_of(b)[2 * i + 1]) < 16,
        16 * hex_value(hex_bytes_of(b)[2 * i]) + hex_value(hex_bytes_of(b)[2 * i + 1]) == b[i],
{
    assert((2 * i) % 2 == 0 && (2 * i) / 2 == i);
    assert((2 * i + 1) % 2 == 1 && (2 * i + 1) / 2 == i);
}

/// A number in sixteen hexadecimal digits has, at each place, the digit for four of its
/// bits, the highest first.
pub proof fn law_hex16_has_four_bits_per_digit(n: u64, i: int)
    requires
        0 <= i < 16,
    ensures
        hex16_of(n).len() == 16,
        hex_value(hex16_of(n)[i]) == (n >> ((60 - 4 * i) as u64)) & 15,
{
    let k = (60 - 4 * i) as u64;
    assert((n >> k) & 15 <= 15) by (bit_vector);
}

} // verus!
