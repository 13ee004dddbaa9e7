//! The width and height that a probe of a video prints, one to a line.
use vstd::prelude::*;

verus! {

/// Why a size cannot be read.
#[derive(Clone, Copy, Debug, PartialEq, Eq)]
pub enum ProbeError {
    MissingWidth,
    BadWidth,
    MissingHeight,
    BadHeight,
}

/// White space of Unicode.
pub open spec fn is_space(c: char) -> bool {
    let x = c as u32;
    9 <= x <= 13 || x == 0x20 || x == 0x85 || x == 0xA0 || x == 0x1680 || 0x2000 <= x <= 0x200A || x
        == 0x2028 || x == 0x2029 || x == 0x202F || x == 0x205F || x == 0x3000
}

/// A text without the white space at its start.
pub open spec fn trimmed_start(s: Seq<char>) -> Seq<char>
    decreases s.len(),
{
    if s.len() > 0 && is_space(s[0]) {
        trimmed_start(s.skip(1))
    } else {
        s
    }
}

/// A text without the white space at its end.
pub open spec fn trimmed_end(s: Seq<char>) -> Seq<char>
    decreases s.len(),
{
    if s.len() > 0 && is_space(s.last()) {
        trimmed_end(s.drop_last())
    } else {
        s
    }
}

/// The number that decimal digits spell; nothing else spells a number.
pub open spec fn digits_value(s: Seq<char>) -> Option<nat>
    decreases s.len(),
{
    if s.len() == 0 {
        Some(0)
    } else {
        match digits_value(s.drop_last()) {
            Some(v) if '0' <= s.last() <= '9' => Some(
                v * 10 + (s.last() as u32 - '0' as u32) as nat,
            ),
            _ => None,
        }
    }
}

/// The number that a text without white space spells: digits, with a plus sign before them or not,
/// and no more than the machine can hold.
pub open spec fn spelled(s: Seq<char>) -> Option<usize> {
    let d = if s.len() > 0 && s[0] == '+' {
        s.skip(1)
    } else {
        s
    };
    if d.len() == 0 {
        None
    } else {
        match digits_value(d) {
            Some(v) if v <= usize::MAX => Some(v as usize),
            _ => None,
        }
    }
}

/// Where the first line of a text ends.
pub open spec fn line_end(s: Seq<char>) -> int
    decreases s.len(),
{
    if s.len() == 0 || s[0] == '\n' {
        0
    } else {
        1 + line_end(s.skip(1))
    }
}

/// The number that a line says, with white space round it or not.
pub open spec fn number_on(line: Seq<char>) -> Option<usize> {
    spelled(trimmed_end(trimmed_start(line)))
}

/// What is behind the first line.
pub open spec fn behind_line(s: Seq<char>) -> Seq<char> {
    if line_end(s) < s.len() {
        s.skip(line_end(s) + 1)
    } else {
        Seq::empty()
    }
}

/// The size that a text says.
pub open spec fn size_in(s: Seq<char>) -> Result<(usize, usize), ProbeError> {
    let rest = behind_line(s);
    if s.len() == 0 {
        Err(ProbeError::MissingWidth)
    } else {
        match number_on(s.take(line_end(s))) {
            None => Err(ProbeError::BadWidth),
            Some(w) => if rest.len() == 0 {
                Err(ProbeError::MissingHeight)
            } else {
                match number_on(rest.take(line_end(rest))) {
                    None => Err(ProbeError::BadHeight),
                    Some(h) => Ok((w, h)),
                }
            },
        }
    }
}

fn is_space_char(c: char) -> (r: bool)
    ensures
        r == is_space(c),
{
    let x: u32 = c as u32;
    (9 <= x && x <= 13) || x == 0x20 || x == 0x85 || x == 0xA0 || x == 0x1680 || (0x2000 <= x && x
        <= 0x200A) || x == 0x2028 || x == 0x2029 || x == 0x202F || x == 0x205F || x == 0x3000
}

/// Where the line that starts at `from` ends.
fn find_line_end(text: &[char], from: usize) -> (to: usize)
    requires
        from <= text@.len(),
    ensures
        from <= to <= text@.len(),
        to == from + line_end(text@.skip(from as int)),
{
    let ghost s = text@.skip(from as int);
    let mut i: usize = from;
    assert(s.skip(0) =~= s);
    while i < text.len() && text[i] != '\n'
        invariant
            from <= i <= text@.len(),
            s == text@.skip(from as int),
            line_end(s) == (i - from) + line_end(s.skip(i - from)),
        decreases text@.len() - i,
    {
        assert(s.skip(i - from)[0] == text@[i as int]);
        assert(s.skip(i - from).skip(1) =~= s.skip(i + 1 - from));
        i = i + 1;
    }
    assert(i < text@.len() ==> s.skip(i - from)[0] == text@[i as int]);
    i
}

/// The number that `text[from..to]` spells.
fn read_number(text: &[char], from: usize, to: usize) -> (r: Option<usize>)
    requires
        from <= to <= text@.len(),
    ensures
        r == number_on(text@.subrange(from as int, to as int)),
{
    let ghost line = text@.subrange(from as int, to as int);
    let mut a: usize = from;
    while a < to && is_space_char(text[a])
        invariant
            from <= a <= to <= text@.len(),
            trimmed_start(line) == trimmed_start(text@.subrange(a as int, to as int)),
        decreases to - a,
    {
        assert(text@.subrange(a as int, to as int).skip(1) =~= text@.subrange(a + 1, to as int));
        a = a + 1;
    }
    let ghost cut = text@.subrange(a as int, to as int);
    assert(trimmed_start(line) == cut);
    let mut b: usize = to;
    while b > a && is_space_char(text[b - 1])
        invariant
            from <= a <= b <= to <= text@.len(),
            trimmed_end(cut) == trimmed_end(text@.subrange(a as int, b as int)),
        decreases b,
    {
        assert(text@.subrange(a as int, b as int).drop_last() =~= text@.subrange(
            a as int,
            b - 1,
        ));
        b = b - 1;
    }
    let ghost word = text@.subrange(a as int, b as int);
    assert(trimmed_end(cut) == word);
    let mut i: usize = a;
    if i < b && text[i] == '+' {
        i = i + 1;
    }
    let ghost digits = text@.subrange(i as int, b as int);
    assert(i > a ==> word.skip(1) =~= digits);
    if i == b {
        return None;
    }
    let first: usize = i;
    let mut v: usize = 0;
    assert(digits.take(0) =~= Seq::<char>::empty());
    while i < b
        invariant
            first <= i <= b <= text@.len(),
            digits == text@.subrange(first as int, b as int),
            word == text@.subrange(a as int, b as int),
            spelled(word) == (match digits_value(digits) {
                Some(v) if v <= usize::MAX => Some(v as usize),
                _ => None,
            }),
            number_on(line) == spelled(word),
            line == text@.subrange(from as int, to as int),
            digits_value(digits.take(i - first)) == Some(v as nat),
        decreases b - i,
    {
        let c: char = text[i];
        let ghost before = digits.take(i - first);
        let ghost upto = digits.take(i + 1 - first);
        proof {
            assert(upto.drop_last() =~= before);
            assert(upto.last() == c);
            lemma_digits_grow(digits, (i + 1 - first) as nat);
        }
        if c < '0' || c > '9' {
            return None;
        }
        let d: usize = (c as u32 - '0' as u32) as usize;
        match v.checked_mul(10) {
            Some(x) => match x.checked_add(d) {
                Some(y) => {
                    v = y;
                },
                None => {
                    return None;
                },
            },
            None => {
                return None;
            },
        }
        i = i + 1;
    }
    assert(digits.take(i - first) =~= digits);
    Some(v)
}

/// More digits spell no smaller number, and what is no number does not become one.
proof fn lemma_digits_grow(s: Seq<char>, n: nat)
    requires
        n <= s.len(),
    ensures
        digits_value(s.take(n as int)) is None ==> digits_value(s) is None,
        digits_value(s.take(n as int)) matches Some(v) ==> (digits_value(s) matches Some(w) ==> v
            <= w),
    decreases s.len(),
{
    if n == s.len() {
        assert(s.take(n as int) =~= s);
    } else {
        lemma_digits_grow(s.drop_last(), n);
        assert(s.drop_last().take(n as int) =~= s.take(n as int));
    }
}

/// Reads the width and height that a probe has printed.
pub fn parse_size(text: &[char]) -> (r: Result<(usize, usize), ProbeError>)
    ensures
        r == size_in(text@),
{
    if text.len() == 0 {
        return Err(ProbeError::MissingWidth);
    }
    let end: usize = find_line_end(text, 0);
    proof {
        assert(text@.skip(0) =~= text@);
        assert(text@.subrange(0, end as int) =~= text@.take(end as int));
    }
    let w: usize = match read_number(text, 0, end) {
        Some(w) => w,
        None => {
            return Err(ProbeError::BadWidth);
        },
    };
    if end >= text.len() - 1 {
        assert(behind_line(text@).len() == 0);
        return Err(ProbeError::MissingHeight);
    }
    let ghost rest = behind_line(text@);
    assert(rest =~= text@.skip(end + 1));
    let end2: usize = find_line_end(text, end + 1);
    assert(text@.subrange(end + 1, end2 as int) =~= rest.take(line_end(rest)));
    match read_number(text, end + 1, end2) {
        Some(h) => Ok((w, h)),
        None => Err(ProbeError::BadHeight),
    }
}

/// The decimal digits of a number.
pub open spec fn decimal(n: nat) -> Seq<char>
    decreases n,
{
    let d = ('0' as u32 + n % 10) as char;
    if n < 10 {
        seq![d]
    } else {
        decimal(n / 10).push(d)
    }
}

/// The digits of a number spell it, and nothing but digits is in them.
proof fn lemma_decimal(n: nat)
    ensures
        decimal(n).len() > 0,
        digits_value(decimal(n)) == Some(n),
        forall|i: int| 0 <= i < decimal(n).len() ==> '0' <= #[trigger] decimal(n)[i] <= '9',
    decreases n,
{
    let d = ('0' as u32 + n % 10) as char;
    assert(d as u32 == '0' as u32 + n % 10);
    reveal_with_fuel(digits_value, 2);
    if n < 10 {
        assert(decimal(n) == seq![d]);
        assert(seq![d].drop_last() =~= Seq::<char>::empty());
    } else {
        lemma_decimal(n / 10);
        assert(decimal(n) == decimal(n / 10).push(d));
        assert(decimal(n).drop_last() =~= decimal(n / 10));
    }
}

/// A text that starts with spaces only loses them at its start, and one that ends with spaces at
/// its end; where there are none nothing is lost.
proof fn lemma_trimmed(before: Seq<char>, s: Seq<char>, after: Seq<char>)
    requires
        s.len() > 0,
        !is_space(s[0]),
        !is_space(s.last()),
        forall|i: int| 0 <= i < before.len() ==> is_space(#[trigger] before[i]),
        forall|i: int| 0 <= i < after.len() ==> is_space(#[trigger] after[i]),
    ensures
        trimmed_end(trimmed_start(before + s + after)) == s,
    decreases before.len() + after.len(),
{
    let t = before + s + after;
    if before.len() > 0 {
        assert(t[0] == before[0]);
        assert(is_space(t[0]));
        let rest = before.skip(1);
        assert(t.skip(1) =~= rest + s + after);
        assert forall|i: int| 0 <= i < rest.len() implies is_space(#[trigger] rest[i]) by {
            assert(rest[i] == before[i + 1]);
        }
        lemma_trimmed(rest, s, after);
    } else {
        assert(t =~= s + after);
        assert(t[0] == s[0]);
        assert(trimmed_start(t) == t);
        lemma_trimmed_end(s, after);
    }
}

proof fn lemma_trimmed_end(s: Seq<char>, after: Seq<char>)
    requires
        s.len() > 0,
        !is_space(s.last()),
        forall|i: int| 0 <= i < after.len() ==> is_space(#[trigger] after[i]),
    ensures
        trimmed_end(s + after) == s,
    decreases after.len(),
{
    let t = s + after;
    if after.len() > 0 {
        let rest = after.drop_last();
        assert(t.last() == after.last());
        assert(is_space(after[after.len() - 1]));
        assert(t.drop_last() =~= s + rest);
        assert forall|i: int| 0 <= i < rest.len() implies is_space(#[trigger] rest[i]) by {
            assert(rest[i] == after[i]);
        }
        lemma_trimmed_end(s, rest);
    } else {
        assert(t =~= s);
    }
}

proof fn lemma_line_end(line: Seq<char>, rest: Seq<char>)
    requires
        forall|i: int| 0 <= i < line.len() ==> #[trigger] line[i] != '\n',
        rest.len() == 0 || rest[0] == '\n',
    ensures
        line_end(line + rest) == line.len(),
    decreases line.len(),
{
    let t = line + rest;
    if line.len() == 0 {
        assert(t =~= rest);
    } else {
        let tail = line.skip(1);
        assert(t[0] == line[0]);
        assert(t.skip(1) =~= tail + rest);
        assert forall|i: int| 0 <= i < tail.len() implies #[trigger] tail[i] != '\n' by {
            assert(tail[i] == line[i + 1]);
        }
        lemma_line_end(tail, rest);
    }
}

/// Blanks and tabs and the like, but no end of a line.
pub open spec fn is_blank(s: Seq<char>) -> bool {
    forall|i: int| 0 <= i < s.len() ==> is_space(#[trigger] s[i]) && s[i] != '\n'
}

proof fn lemma_number_on(before: Seq<char>, n: usize, after: Seq<char>)
    requires
        is_blank(before),
        is_blank(after),
    ensures
        number_on(before + decimal(n as nat) + after) == Some(n),
        forall|i: int|
            0 <= i < (before + decimal(n as nat) + after).len() ==> #[trigger] (before + decimal(
                n as nat,
            ) + after)[i] != '\n',
{
    let d = decimal(n as nat);
    lemma_decimal(n as nat);
    assert('0' <= d[0] <= '9' && '0' <= d[d.len() - 1] <= '9');
    assert forall|i: int| 0 <= i < before.len() implies is_space(#[trigger] before[i]) by {}
    assert forall|i: int| 0 <= i < after.len() implies is_space(#[trigger] after[i]) by {}
    lemma_trimmed(before, d, after);
    let line = before + d + after;
    assert forall|i: int| 0 <= i < line.len() implies #[trigger] line[i] != '\n' by {
        if i < before.len() {
            assert(line[i] == before[i]);
        } else if i < before.len() + d.len() {
            assert(line[i] == d[i - before.len()]);
        } else {
            assert(line[i] == after[i - before.len() - d.len()]);
        }
    }
}

/// A text of two lines with a number on each, written with decimal digits and with blanks round
/// them or not, says that the first is the width and the second the height.
pub proof fn law_two_numbers_are_a_size(
    w: usize,
    h: usize,
    a: Seq<char>,
    b: Seq<char>,
    c: Seq<char>,
    d: Seq<char>,
    rest: Seq<char>,
)
    requires
        is_blank(a),
        is_blank(b),
        is_blank(c),
        is_blank(d),
        rest.len() == 0 || rest[0] == '\n',
    ensures
        size_in(
            (a + decimal(w as nat) + b) + (seq!['\n'] + ((c + decimal(h as nat) + d) + rest)),
        ) == Ok::<(usize, usize), ProbeError>((w, h)),
{
    let first = a + decimal(w as nat) + b;
    let second = c + decimal(h as nat) + d;
    let tail = second + rest;
    let s = first + (seq!['\n'] + tail);
    lemma_number_on(a, w, b);
    lemma_number_on(c, h, d);
    lemma_decimal(w as nat);
    lemma_decimal(h as nat);
    lemma_line_end(first, seq!['\n'] + tail);
    lemma_line_end(second, rest);
    assert(s.take(first.len() as int) =~= first);
    assert(s.skip(first.len() as int + 1) =~= tail);
    assert(tail.take(second.len() as int) =~= second);
}

} // verus!
