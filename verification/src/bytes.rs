//! Integers as byte strings, in both orders, and as hexadecimal text.
use crate::util;
use vstd::prelude::*;

verus! {

/// Appends one character.
///
/// `String::push` of the standard library: the text is the one before with the character at its
/// end.
pub assume_specification [String::push](s: &mut String, ch: char)
    ensures
        final(s)@ == old(s)@.push(ch),
;

/// The number of values that `n` bytes can take.
pub open spec fn span(n: nat) -> nat
    decreases n,
{
    if n == 0 {
        1
    } else {
        256 * span((n - 1) as nat)
    }
}

/// The value of bytes written from the most significant one.
pub open spec fn be_value(s: Seq<u8>) -> nat
    decreases s.len(),
{
    if s.len() == 0 {
        0
    } else {
        be_value(s.drop_last()) * 256 + s.last() as nat
    }
}

/// The last `n` bytes of a number, from the most significant one.
pub open spec fn be_bytes(v: nat, n: nat) -> Seq<u8>
    decreases n,
{
    if n == 0 {
        Seq::empty()
    } else {
        be_bytes(v / 256, (n - 1) as nat).push((v % 256) as u8)
    }
}

/// The value of bytes written from the least significant one.
pub open spec fn le_value(s: Seq<u8>) -> nat {
    be_value(s.reverse())
}

/// The last `n` bytes of a number, from the least significant one.
pub open spec fn le_bytes(v: nat, n: nat) -> Seq<u8> {
    be_bytes(v, n).reverse()
}

pub proof fn lemma_be_bytes(v: nat, n: nat)
    ensures
        be_bytes(v, n).len() == n,
        v < span(n) ==> be_value(be_bytes(v, n)) == v,
    decreases n,
{
    if n > 0 {
        lemma_be_bytes(v / 256, (n - 1) as nat);
        assert(be_bytes(v, n).drop_last() =~= be_bytes(v / 256, (n - 1) as nat));
    }
}

pub proof fn lemma_be_value(s: Seq<u8>)
    ensures
        be_value(s) < span(s.len()),
        be_bytes(be_value(s), s.len()) == s,
    decreases s.len(),
{
    if s.len() == 0 {
        assert(be_bytes(0, 0) =~= s);
    } else {
        lemma_be_value(s.drop_last());
        assert(s.drop_last().push(s.last()) =~= s);
    }
}

pub proof fn lemma_le_bytes(v: nat, n: nat)
    ensures
        le_bytes(v, n).len() == n,
        v < span(n) ==> le_value(le_bytes(v, n)) == v,
{
    lemma_be_bytes(v, n);
    assert(le_bytes(v, n).reverse() =~= be_bytes(v, n));
}

pub proof fn lemma_le_value(s: Seq<u8>)
    ensures
        le_value(s) < span(s.len()),
        le_bytes(le_value(s), s.len()) == s,
{
    lemma_be_value(s.reverse());
    assert(s.reverse().reverse() =~= s);
}

/// The most significant byte counts its whole span.
pub proof fn lemma_first_byte(v: nat, n: nat)
    requires
        n > 0,
    ensures
        be_bytes(v, n).len() == n,
        be_bytes(v, n)[0] * span((n - 1) as nat) <= v,
    decreases n,
{
    lemma_be_bytes(v, n);
    reveal_with_fuel(be_bytes, 2);
    reveal_with_fuel(span, 2);
    if n > 1 {
        let m = (n - 1) as nat;
        lemma_first_byte(v / 256, m);
        let x = be_bytes(v / 256, m)[0] as int;
        let s = span((m - 1) as nat) as int;
        let w = v / 256;
        assert(be_bytes(v, n)[0] == x);
        assert(x * span(m) <= v) by (nonlinear_arith)
            requires
                span(m) == 256 * s,
                x * s <= w,
                w == v / 256,
        ;
    } else {
        let x = be_bytes(v, n)[0] as int;
        assert(x * span(0) <= v) by (nonlinear_arith)
            requires
                span(0) == 1,
                x <= v,
        ;
    }
}

pub proof fn lemma_spans()
    ensures
        span(4) == 0x1_0000_0000,
        span(7) == 0x100_0000_0000_0000,
        span(8) == 0x1_0000_0000_0000_0000,
{
    reveal_with_fuel(span, 9);
}

proof fn lemma_span_grows(m: nat, n: nat)
    requires
        m <= n,
    ensures
        span(m) <= span(n),
    decreases n,
{
    if m < n {
        lemma_span_grows(m, (n - 1) as nat);
    }
}

/// The number that `bytes[from..from + n]` holds, most significant byte first.
pub fn read_be(bytes: &[u8], from: usize, n: usize) -> (v: u64)
    requires
        n <= 8,
        from + n <= bytes.len(),
    ensures
        v == be_value(bytes@.subrange(from as int, from + n)),
{
    let ghost s = bytes@.subrange(from as int, from + n);
    let mut v: u64 = 0;
    let mut i: usize = 0;
    assert(s.take(0).len() == 0);
    while i < n
        invariant
            i <= n <= 8,
            from + n <= bytes.len(),
            s == bytes@.subrange(from as int, from + n),
            v == be_value(s.take(i as int)),
        decreases n - i,
    {
        proof {
            assert(s.take(i + 1).drop_last() =~= s.take(i as int));
            lemma_be_value(s.take(i as int));
            lemma_be_value(s.take(i + 1));
            lemma_span_grows((i + 1) as nat, 8);
            lemma_spans();
        }
        v = v * 256 + bytes[from + i] as u64;
        i = i + 1;
    }
    assert(s.take(n as int) =~= s);
    v
}

/// The number that `bytes[from..from + n]` holds, least significant byte first.
pub fn read_le(bytes: &[u8], from: usize, n: usize) -> (v: u64)
    requires
        n <= 8,
        from + n <= bytes.len(),
    ensures
        v == le_value(bytes@.subrange(from as int, from + n)),
{
    let ghost s = bytes@.subrange(from as int, from + n).reverse();
    let mut v: u64 = 0;
    let mut i: usize = 0;
    assert(s.take(0).len() == 0);
    while i < n
        invariant
            i <= n <= 8,
            from + n <= bytes.len(),
            s == bytes@.subrange(from as int, from + n).reverse(),
            v == be_value(s.take(i as int)),
        decreases n - i,
    {
        proof {
            assert(s.take(i + 1).drop_last() =~= s.take(i as int));
            lemma_be_value(s.take(i as int));
            lemma_be_value(s.take(i + 1));
            lemma_span_grows((i + 1) as nat, 8);
            lemma_spans();
        }
        v = v * 256 + bytes[from + n - 1 - i] as u64;
        i = i + 1;
    }
    assert(s.take(n as int) =~= s);
    v
}

/// Appends the last `n` bytes of a number, least significant byte first.
pub fn push_le(out: &mut Vec<u8>, v: u64, n: usize)
    ensures
        final(out)@ == old(out)@ + le_bytes(v as nat, n as nat),
{
    let ghost start = out@;
    let mut rest: u64 = v;
    let mut i: usize = 0;
    assert(out@ =~= start + Seq::<u8>::empty());
    while i < n
        invariant
            i <= n,
            out@.len() == start.len() + i,
            out@ + le_bytes(rest as nat, (n - i) as nat) == start + le_bytes(v as nat, n as nat),
        decreases n - i,
    {
        let ghost before = out@;
        let ghost r0 = rest as nat;
        out.push((rest % 256) as u8);
        rest = rest / 256;
        i = i + 1;
        proof {
            let more = be_bytes(r0 / 256, (n - i) as nat);
            lemma_be_bytes(r0 / 256, (n - i) as nat);
            lemma_be_bytes(r0, (n - i + 1) as nat);
            assert(le_bytes(r0, (n - i + 1) as nat) =~= seq![(r0 % 256) as u8] + more.reverse());
            assert(out@ + le_bytes(rest as nat, (n - i) as nat) =~= before + le_bytes(
                r0,
                (n - i + 1) as nat,
            ));
        }
    }
    assert(le_bytes(rest as nat, 0) =~= Seq::<u8>::empty());
    assert(out@ =~= start + le_bytes(v as nat, n as nat));
}

/// The last `n` bytes of a number, most significant byte first.
pub fn to_be(v: u64, n: usize) -> (out: Vec<u8>)
    ensures
        out@ == be_bytes(v as nat, n as nat),
{
    let mut out: Vec<u8> = vec![0u8; n];
    let mut rest: u64 = v;
    let mut i: usize = n;
    assert(out@.skip(n as int) =~= Seq::<u8>::empty());
    assert(be_bytes(v as nat, n as nat) =~= be_bytes(rest as nat, i as nat) + out@.skip(i as int));
    while i > 0
        invariant
            i <= n,
            out.len() == n,
            be_bytes(v as nat, n as nat) == be_bytes(rest as nat, i as nat) + out@.skip(i as int),
        decreases i,
    {
        let ghost before = out@;
        let ghost r0 = rest as nat;
        out.set(i - 1, (rest % 256) as u8);
        rest = rest / 256;
        i = i - 1;
        proof {
            assert(out@.skip(i as int) =~= seq![(r0 % 256) as u8] + before.skip(i + 1));
            assert(be_bytes(r0, (i + 1) as nat) + before.skip(i + 1) =~= be_bytes(
                rest as nat,
                i as nat,
            ) + out@.skip(i as int));
        }
    }
    assert(be_bytes(rest as nat, 0) + out@.skip(0) =~= out@);
    out
}

/// A record with its checksum behind it.
pub fn seal(body: Vec<u8>, crc: u32) -> (out: Vec<u8>)
    ensures
        out@ == body@ + be_bytes(crc as nat, 4),
        out@.len() == body@.len() + 4,
{
    proof {
        lemma_be_bytes(crc as nat, 4);
        lemma_spans();
    }
    let tail: Vec<u8> = to_be(crc as u64, 4);
    let mut out: Vec<u8> = body;
    util::append_all(&mut out, tail.as_slice());
    out
}

/// The lower-case hexadecimal digit of a number below 16.
pub open spec fn hex_digit(d: nat) -> char {
    seq!['0', '1', '2', '3', '4', '5', '6', '7', '8', '9', 'a', 'b', 'c', 'd', 'e', 'f'][d as int]
}

/// Two hexadecimal digits for each byte.
pub open spec fn hex_of(s: Seq<u8>) -> Seq<char>
    decreases s.len(),
{
    if s.len() == 0 {
        Seq::empty()
    } else {
        hex_of(s.drop_last()).push(hex_digit(s.last() as nat / 16)).push(
            hex_digit(s.last() as nat % 16),
        )
    }
}

fn digit_char(d: u8) -> (c: char)
    requires
        d < 16,
    ensures
        c == hex_digit(d as nat),
{
    match d {
        0 => '0',
        1 => '1',
        2 => '2',
        3 => '3',
        4 => '4',
        5 => '5',
        6 => '6',
        7 => '7',
        8 => '8',
        9 => '9',
        10 => 'a',
        11 => 'b',
        12 => 'c',
        13 => 'd',
        14 => 'e',
        _ => 'f',
    }
}

pub fn to_hex(bytes: &[u8]) -> (text: String)
    ensures
        text@ == hex_of(bytes@),
{
    let mut text: String = String::new();
    let mut i: usize = 0;
    proof {
        assert(text@ =~= Seq::<char>::empty());
        assert(bytes@.take(0).len() == 0);
    }
    while i < bytes.len()
        invariant
            i <= bytes.len(),
            text@ == hex_of(bytes@.take(i as int)),
        decreases bytes.len() - i,
    {
        let b: u8 = bytes[i];
        text.push(digit_char(b / 16));
        text.push(digit_char(b % 16));
        assert(bytes@.take(i + 1).drop_last() =~= bytes@.take(i as int));
        i = i + 1;
    }
    assert(bytes@.take(i as int) =~= bytes@);
    text
}

/// The last byte of a big-endian number is its remainder by 256, and each byte before it that of
/// what is left when one byte more is taken off.
pub proof fn law_bytes_are_digits(v: nat, n: nat, i: int)
    requires
        0 <= i < n,
    ensures
        be_bytes(v, n).len() == n,
        be_bytes(v, n)[n - 1 - i] == (v / span(i as nat)) % 256,
        le_bytes(v, n).len() == n,
        le_bytes(v, n)[i] == (v / span(i as nat)) % 256,
    decreases n,
{
    lemma_digit(v, n, i);
    lemma_be_bytes(v, n);
}

proof fn lemma_digit(v: nat, n: nat, i: int)
    requires
        0 <= i < n,
    ensures
        be_bytes(v, n)[n - 1 - i] == (v / span(i as nat)) % 256,
    decreases n,
{
    lemma_be_bytes(v / 256, (n - 1) as nat);
    if i == 0 {
        assert(v / 1 == v);
    } else {
        let s = span((i - 1) as nat);
        lemma_digit(v / 256, (n - 1) as nat, i - 1);
        lemma_span_positive((i - 1) as nat);
        vstd::arithmetic::div_mod::lemma_div_denominator(v as int, 256, s as int);
    }
}

proof fn lemma_span_positive(n: nat)
    ensures
        span(n) > 0,
    decreases n,
{
    if n > 0 {
        lemma_span_positive((n - 1) as nat);
    }
}

/// The number that a hexadecimal digit stands for.
pub open spec fn digit_value(c: char) -> int {
    if '0' <= c <= '9' {
        c as u32 - '0' as u32
    } else if 'a' <= c <= 'f' {
        c as u32 - 'a' as u32 + 10
    } else {
        -1
    }
}

proof fn lemma_digit_value(d: nat)
    requires
        d < 16,
    ensures
        digit_value(hex_digit(d)) == d,
{
    assert(d == 0 || d == 1 || d == 2 || d == 3 || d == 4 || d == 5 || d == 6 || d == 7 || d == 8
        || d == 9 || d == 10 || d == 11 || d == 12 || d == 13 || d == 14 || d == 15);
}

/// The text of some bytes has two digits for each, the high one first, and reads back as the bytes.
pub proof fn law_hex_text_reads_back(s: Seq<u8>, i: int)
    requires
        0 <= i < s.len(),
    ensures
        hex_of(s).len() == 2 * s.len(),
        digit_value(hex_of(s)[2 * i]) * 16 + digit_value(hex_of(s)[2 * i + 1]) == s[i],
        0 <= digit_value(hex_of(s)[2 * i]) < 16,
        0 <= digit_value(hex_of(s)[2 * i + 1]) < 16,
    decreases s.len(),
{
    lemma_hex_len(s.drop_last());
    lemma_hex_len(s);
    if i == s.len() - 1 {
        lemma_digit_value(s.last() as nat / 16);
        lemma_digit_value(s.last() as nat % 16);
    } else {
        law_hex_text_reads_back(s.drop_last(), i);
    }
}

proof fn lemma_hex_len(s: Seq<u8>)
    ensures
        hex_of(s).len() == 2 * s.len(),
    decreases s.len(),
{
    if s.len() > 0 {
        lemma_hex_len(s.drop_last());
    }
}

} // verus!
