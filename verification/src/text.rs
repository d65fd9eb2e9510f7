//! Plain text: characters, white space, numbers.

use vstd::prelude::*;

verus! {

/// `String::push` appends one character.
pub assume_specification[ String::push ](s: &mut String, c: char)
    ensures
        final(s)@ == old(s)@.push(c),
;

/// `a` followed by `b`.
pub fn joined(a: &str, b: &str) -> (s: String)
    ensures
        s@ == a@ + b@,
{
    let mut s: String = a.to_string();
    s.append(b);
    s
}

/// The characters of a text.
pub fn to_chars(s: &str) -> (v: Vec<char>)
    ensures
        v@ == s@,
{
    let mut v: Vec<char> = Vec::new();
    let n: usize = s.unicode_len();
    let mut i: usize = 0;
    while i < n
        invariant
            i <= n,
            n == s@.len(),
            v@ == s@.take(i as int),
        decreases n - i,
    {
        v.push(s.get_char(i));
        i = i + 1;
        assert(s@.take(i as int) =~= s@.take(i - 1).push(s@[i - 1]));
    }
    assert(s@.take(i as int) =~= s@);
    v
}

/// The text of the characters `from..to`.
pub fn to_text(v: &Vec<char>, from: usize, to: usize) -> (s: String)
    requires
        from <= to <= v@.len(),
    ensures
        s@ == v@.subrange(from as int, to as int),
{
    let mut s: String = String::new();
    let mut i: usize = from;
    assert(s@ =~= v@.subrange(from as int, from as int));
    while i < to
        invariant
            from <= i <= to <= v@.len(),
            s@ == v@.subrange(from as int, i as int),
        decreases to - i,
    {
        s.push(v[i]);
        i = i + 1;
        assert(v@.subrange(from as int, i as int) =~= v@.subrange(from as int, i - 1).push(
            v@[i - 1],
        ));
    }
    s
}

/// Whether the characters `from..to` are the text `t`.
pub fn is_text(v: &Vec<char>, from: usize, to: usize, t: &str) -> (r: bool)
    requires
        from <= to <= v@.len(),
    ensures
        r == (v@.subrange(from as int, to as int) == t@),
{
    let n: usize = t.unicode_len();
    if to - from != n {
        return false;
    }
    let mut i: usize = 0;
    while i < n
        invariant
            i <= n,
            n == t@.len(),
            n == to - from,
            from <= to <= v@.len(),
            forall|k: int| 0 <= k < i ==> v@[from + k] == t@[k],
        decreases n - i,
    {
        if v[from + i] != t.get_char(i) {
            assert(v@.subrange(from as int, to as int)[i as int] != t@[i as int]);
            return false;
        }
        i = i + 1;
    }
    assert(v@.subrange(from as int, to as int) =~= t@);
    true
}

/// Whether the characters from `from` on, up to `to`, start with the text `t`.
pub fn has_prefix(v: &Vec<char>, from: usize, to: usize, t: &str) -> (r: bool)
    requires
        from <= to <= v@.len(),
    ensures
        r == t@.is_prefix_of(v@.subrange(from as int, to as int)),
{
    let n: usize = t.unicode_len();
    let ghost s = v@.subrange(from as int, to as int);
    if to - from < n {
        return false;
    }
    assert(s.subrange(0, t@.len() as int) =~= v@.subrange(from as int, from + n));
    is_text(v, from, from + n, t)
}

// ---------------------------------------------------------------------
// White space

/// The characters with the Unicode property `White_Space`.
pub open spec fn is_white(c: char) -> bool {
    ||| 0x9 <= c as u32 <= 0xd
    ||| c as u32 == 0x20
    ||| c as u32 == 0x85
    ||| c as u32 == 0xa0
    ||| c as u32 == 0x1680
    ||| 0x2000 <= c as u32 <= 0x200a
    ||| c as u32 == 0x2028
    ||| c as u32 == 0x2029
    ||| c as u32 == 0x202f
    ||| c as u32 == 0x205f
    ||| c as u32 == 0x3000
}

pub fn white(c: char) -> (r: bool)
    ensures
        r == is_white(c),
{
    let n: u32 = c as u32;
    (0x9 <= n && n <= 0xd) || n == 0x20 || n == 0x85 || n == 0xa0 || n == 0x1680 || (0x2000 <= n
        && n <= 0x200a) || n == 0x2028 || n == 0x2029 || n == 0x202f || n == 0x205f || n == 0x3000
}

pub open spec fn trim_start(s: Seq<char>) -> Seq<char>
    decreases s.len(),
{
    if s.len() > 0 && is_white(s[0]) {
        trim_start(s.drop_first())
    } else {
        s
    }
}

pub open spec fn trim_end(s: Seq<char>) -> Seq<char>
    decreases s.len(),
{
    if s.len() > 0 && is_white(s.last()) {
        trim_end(s.drop_last())
    } else {
        s
    }
}

/// `s` without the white space at its ends.
pub open spec fn trim(s: Seq<char>) -> Seq<char> {
    trim_end(trim_start(s))
}

/// Where the text between `from` and `to` starts and ends, white space left
/// out.
pub fn trimmed(v: &Vec<char>, from: usize, to: usize) -> (r: (usize, usize))
    requires
        from <= to <= v@.len(),
    ensures
        from <= r.0 <= r.1 <= to,
        v@.subrange(r.0 as int, r.1 as int) == trim(v@.subrange(from as int, to as int)),
{
    let ghost s = v@.subrange(from as int, to as int);
    let mut a: usize = from;
    while a < to && white(v[a])
        invariant
            from <= a <= to <= v@.len(),
            s == v@.subrange(from as int, to as int),
            trim_start(s) == trim_start(v@.subrange(a as int, to as int)),
        decreases to - a,
    {
        assert(v@.subrange(a as int, to as int).drop_first() =~= v@.subrange(a + 1, to as int));
        a = a + 1;
    }
    let ghost t = v@.subrange(a as int, to as int);
    assert(trim_start(s) == t);
    let mut b: usize = to;
    while b > a && white(v[b - 1])
        invariant
            from <= a <= b <= to <= v@.len(),
            t == v@.subrange(a as int, to as int),
            trim_end(t) == trim_end(v@.subrange(a as int, b as int)),
        decreases b - a,
    {
        assert(v@.subrange(a as int, b as int).drop_last() =~= v@.subrange(a as int, b - 1));
        b = b - 1;
    }
    (a, b)
}

/// Text that neither starts nor ends with white space is left as it is.
pub proof fn lemma_trim_tight(s: Seq<char>)
    requires
        s.len() > 0,
        !is_white(s[0]),
        !is_white(s.last()),
    ensures
        trim(s) == s,
{
}

// ---------------------------------------------------------------------
// Numbers

/// The value of a digit.
pub open spec fn digit(c: char, radix: nat) -> Option<nat> {
    let v = if '0' <= c <= '9' {
        (c as u32 - 0x30) as nat
    } else if 'a' <= c <= 'z' {
        (c as u32 - 0x61 + 10) as nat
    } else if 'A' <= c <= 'Z' {
        (c as u32 - 0x41 + 10) as nat
    } else {
        radix
    };
    if v < radix {
        Some(v)
    } else {
        None
    }
}

/// The value of a row of digits, first the highest; an empty row is worth 0.
pub open spec fn digits_value(s: Seq<char>, radix: nat) -> Option<nat>
    decreases s.len(),
{
    if s.len() == 0 {
        Some(0)
    } else {
        match (digits_value(s.drop_last(), radix), digit(s.last(), radix)) {
            (Some(hi), Some(lo)) => Some(hi * radix + lo),
            _ => None,
        }
    }
}

/// An unsigned number of at most `max`: a `+` may stand before its digits, of
/// which there is at least one.
pub open spec fn unsigned(s: Seq<char>, radix: nat, max: nat) -> Option<nat> {
    let digits = if s.len() > 0 && s[0] == '+' {
        s.skip(1)
    } else {
        s
    };
    if digits.len() == 0 {
        None
    } else {
        match digits_value(digits, radix) {
            Some(v) => if v <= max {
                Some(v)
            } else {
                None
            },
            None => None,
        }
    }
}

fn digit_of(c: char, radix: u128) -> (d: Option<u128>)
    requires
        2 <= radix <= 16,
    ensures
        match d {
            Some(v) => digit(c, radix as nat) == Some(v as nat),
            None => digit(c, radix as nat) is None,
        },
{
    let n: u32 = c as u32;
    let v: u128 = if '0' <= c && c <= '9' {
        (n - 0x30) as u128
    } else if 'a' <= c && c <= 'z' {
        (n - 0x61 + 10) as u128
    } else if 'A' <= c && c <= 'Z' {
        (n - 0x41 + 10) as u128
    } else {
        radix
    };
    if v < radix {
        Some(v)
    } else {
        None
    }
}

/// The value only grows with more digits, and there is none once there was
/// none.
proof fn lemma_digits_grow(s: Seq<char>, n: int, radix: nat)
    requires
        0 <= n <= s.len(),
        radix >= 1,
    ensures
        digits_value(s.take(n), radix) is None ==> digits_value(s, radix) is None,
        digits_value(s, radix) matches Some(v) ==> digits_value(s.take(n), radix) matches Some(w)
            && w <= v,
    decreases s.len() - n,
{
    if n < s.len() {
        lemma_digits_grow(s, n + 1, radix);
        assert(s.take(n + 1).drop_last() =~= s.take(n));
        if let Some(w) = digits_value(s.take(n), radix) {
            assert(w * radix >= w) by (nonlinear_arith)
                requires
                    radix >= 1,
            ;
        }
    } else {
        assert(s.take(n) =~= s);
    }
}

/// Reads an unsigned number of at most `max`.
#[verifier::loop_isolation(false)]
pub fn parse_unsigned(v: &Vec<char>, from: usize, to: usize, radix: u128, max: u128) -> (r: Option<
    u128,
>)
    requires
        from <= to <= v@.len(),
        2 <= radix <= 16,
    ensures
        match r {
            Some(n) => unsigned(v@.subrange(from as int, to as int), radix as nat, max as nat)
                == Some(n as nat),
            None => unsigned(
                v@.subrange(from as int, to as int),
                radix as nat,
                max as nat,
            ) is None,
        },
{
    let ghost s = v@.subrange(from as int, to as int);
    let mut start: usize = from;
    if from < to && v[from] == '+' {
        start = from + 1;
    }
    let ghost digits = v@.subrange(start as int, to as int);
    assert(s.len() > 0 && s[0] == '+' ==> s.skip(1) =~= digits);
    assert(!(s.len() > 0 && s[0] == '+') ==> s =~= digits);
    if start == to {
        return None;
    }
    let mut n: u128 = 0;
    let mut i: usize = start;
    assert(digits.take(0) =~= Seq::empty());
    while i < to
        invariant
            start <= i <= to,
            n <= max,
            digits_value(digits.take(i - start), radix as nat) == Some(n as nat),
        decreases to - i,
    {
        let ghost k = i - start;
        proof {
            assert(digits.take(k + 1).drop_last() =~= digits.take(k));
            assert(digits.take(k + 1).last() == v@[i as int]);
            lemma_digits_grow(digits, k + 1, radix as nat);
        }
        let d: u128 = match digit_of(v[i], radix) {
            Some(d) => d,
            None => {
                return None;
            },
        };
        match n.checked_mul(radix) {
            Some(scaled) => {
                if scaled > max || d > max - scaled {
                    return None;
                }
                n = scaled + d;
            },
            None => {
                return None;
            },
        }
        i = i + 1;
    }
    assert(digits.take(i - start) =~= digits);
    Some(n)
}

/// The character of a digit, in lower case.
pub open spec fn digit_char(d: nat) -> char {
    if d < 10 {
        (0x30 + d) as char
    } else {
        (0x61 + d - 10) as char
    }
}

/// A number in decimal digits.
pub open spec fn decimal(n: nat) -> Seq<char>
    decreases n,
{
    if n < 10 {
        seq![digit_char(n)]
    } else {
        decimal(n / 10).push(digit_char(n % 10))
    }
}

/// The `width` lowest hexadecimal digits of a number.
pub open spec fn hex(n: nat, width: nat) -> Seq<char>
    decreases width,
{
    if width == 0 {
        Seq::empty()
    } else {
        hex(n / 16, (width - 1) as nat).push(digit_char(n % 16))
    }
}

/// The character of a digit, in lower case.
fn char_of(d: u32) -> (c: char)
    requires
        d < 16,
    ensures
        c == digit_char(d as nat),
{
    match d {
        0 => '0',
        1 => '1',
        2 => '2',
        3 => '3',
        4 => '4',
        5 => '5',
        6 => '6',
        7 => '7',
        8 => '8',
        9 => '9',
        10 => 'a',
        11 => 'b',
        12 => 'c',
        13 => 'd',
        14 => 'e',
        _ => 'f',
    }
}

/// A number in decimal digits.
pub fn to_decimal(n: u64) -> (s: String)
    ensures
        s@ == decimal(n as nat),
    decreases n,
{
    let last: char = char_of((n % 10) as u32);
    let mut s: String = if n < 10 {
        String::new()
    } else {
        to_decimal(n / 10)
    };
    s.push(last);
    assert(n < 10 ==> s@ =~= decimal(n as nat));
    s
}

/// The `width` lowest hexadecimal digits of a number.
pub fn to_hex(n: u128, width: usize) -> (s: String)
    ensures
        s@ == hex(n as nat, width as nat),
    decreases width,
{
    if width == 0 {
        let s: String = String::new();
        assert(s@ =~= hex(n as nat, 0));
        s
    } else {
        let mut s: String = to_hex(n / 16, width - 1);
        s.push(char_of((n % 16) as u32));
        s
    }
}

proof fn lemma_digit_char(d: nat, radix: nat)
    requires
        d < radix <= 16,
    ensures
        digit(digit_char(d), radix) == Some(d),
{
}

/// Decimal digits are worth the number that they were made of.
pub proof fn decimal_round_trip(n: nat)
    ensures
        digits_value(decimal(n), 10) == Some(n),
        decimal(n).len() > 0,
        forall|i: int|
            0 <= i < decimal(n).len() ==> '0' <= #[trigger] decimal(n)[i] <= '9',
    decreases n,
{
    lemma_digit_char(n % 10, 10);
    if n >= 10 {
        decimal_round_trip(n / 10);
        assert(decimal(n).drop_last() =~= decimal(n / 10));
    } else {
        assert(decimal(n).drop_last() =~= Seq::<char>::empty());
        assert(digits_value(Seq::<char>::empty(), 10) == Some(0nat));
    }
}

/// `16^width`.
pub open spec fn pow16(width: nat) -> nat
    decreases width,
{
    if width == 0 {
        1
    } else {
        16 * pow16((width - 1) as nat)
    }
}

/// Hexadecimal digits, enough of them, are worth the number that they were
/// made of.
pub proof fn hex_round_trip(n: nat, width: nat)
    requires
        n < pow16(width),
    ensures
        digits_value(hex(n, width), 16) == Some(n),
        hex(n, width).len() == width,
        forall|i: int|
            0 <= i < width ==> '0' <= #[trigger] hex(n, width)[i] <= '9' || 'a' <= hex(n, width)[i]
                <= 'f',
    decreases width,
{
    if width > 0 {
        lemma_digit_char(n % 16, 16);
        hex_round_trip(n / 16, (width - 1) as nat);
        assert(hex(n, width).drop_last() =~= hex(n / 16, (width - 1) as nat));
    }
}

// ---------------------------------------------------------------------
// Lists

/// The parts of `s` between separators `c`: one more than there are
/// separators.
pub open spec fn split(s: Seq<char>, c: char) -> Seq<Seq<char>>
    decreases s.len(),
{
    if s.len() == 0 {
        seq![Seq::empty()]
    } else {
        let before = split(s.drop_last(), c);
        if s.last() == c {
            before.push(Seq::empty())
        } else {
            before.update(before.len() - 1, before.last().push(s.last()))
        }
    }
}

/// The parts with separators `c` between them.
pub open spec fn join(parts: Seq<Seq<char>>, c: char) -> Seq<char>
    decreases parts.len(),
{
    if parts.len() == 0 {
        Seq::empty()
    } else if parts.len() == 1 {
        parts[0]
    } else {
        join(parts.drop_last(), c).push(c) + parts.last()
    }
}

pub proof fn lemma_split_nonempty(s: Seq<char>, c: char)
    ensures
        split(s, c).len() >= 1,
    decreases s.len(),
{
    if s.len() > 0 {
        lemma_split_nonempty(s.drop_last(), c);
    }
}

/// Text without the separator lengthens the last part.
proof fn lemma_split_extend(s: Seq<char>, c: char, part: Seq<char>)
    requires
        forall|i: int| 0 <= i < part.len() ==> #[trigger] part[i] != c,
    ensures
        split(s + part, c) == split(s, c).update(
            split(s, c).len() - 1,
            split(s, c).last() + part,
        ),
    decreases part.len(),
{
    lemma_split_nonempty(s, c);
    if part.len() == 0 {
        assert(s + part =~= s);
        assert(split(s, c).last() + part =~= split(s, c).last());
        assert(split(s, c).update(split(s, c).len() - 1, split(s, c).last()) =~= split(s, c));
    } else {
        let init = part.drop_last();
        lemma_split_extend(s, c, init);
        assert((s + part).drop_last() =~= s + init);
        assert((s + part).last() == part.last());
        assert(part[part.len() - 1] != c);
        let mid = split(s + init, c);
        assert((split(s, c).last() + init).push(part.last()) =~= split(s, c).last() + part);
        assert(mid.update(mid.len() - 1, mid.last().push(part.last())) =~= split(s, c).update(
            split(s, c).len() - 1,
            split(s, c).last() + part,
        ));
    }
}

/// Splitting undoes joining, where no part holds the separator.
pub proof fn split_undoes_join(parts: Seq<Seq<char>>, c: char)
    requires
        parts.len() >= 1,
        forall|i: int, k: int|
            0 <= i < parts.len() && 0 <= k < parts[i].len() ==> #[trigger] parts[i][k] != c,
    ensures
        split(join(parts, c), c) == parts,
    decreases parts.len(),
{
    let last = parts.last();
    assert forall|i: int| 0 <= i < last.len() implies #[trigger] last[i] != c by {
        assert(parts[parts.len() - 1][i] != c);
    }
    if parts.len() == 1 {
        lemma_split_extend(Seq::empty(), c, last);
        assert(Seq::<char>::empty() + last =~= last);
        assert(split(last, c) =~= parts);
    } else {
        let init = parts.drop_last();
        assert forall|i: int, k: int|
            0 <= i < init.len() && 0 <= k < init[i].len() implies #[trigger] init[i][k] != c by {
            assert(parts[i][k] != c);
        }
        split_undoes_join(init, c);
        let head = join(init, c).push(c);
        assert(head.drop_last() =~= join(init, c));
        lemma_split_extend(head, c, last);
        assert(split(head, c) == init.push(Seq::empty()));
        assert(Seq::<char>::empty() + last =~= last);
        assert(split(join(parts, c), c) =~= parts);
    }
}

/// A number is written in the digits that it has in base ten, highest first.
pub proof fn decimal_digits(n: nat, d: nat)
    requires
        d < 10,
    ensures
        decimal(d).len() == 1,
        decimal(d)[0] as u32 == 0x30 + d,
        n > 0 ==> decimal(10 * n + d) == decimal(n) + decimal(d),
{
    if n > 0 {
        assert((10 * n + d) / 10 == n);
        assert((10 * n + d) % 10 == d);
        assert(decimal(10 * n + d) =~= decimal(n) + decimal(d));
    }
}

/// A row of digits is worth ten times, or sixteen times, what it is worth
/// without its last digit, and that digit.
pub proof fn digits_are_worth_their_place(s: Seq<char>, c: char, hi: nat)
    requires
        digits_value(s, 10) == Some(hi) || digits_value(s, 16) == Some(hi),
    ensures
        digits_value(s, 10) == Some(hi) && '0' <= c <= '9' ==> digits_value(s.push(c), 10)
            == Some((10 * hi + (c as u32 - 0x30)) as nat),
        digits_value(s, 16) == Some(hi) && '0' <= c <= '9' ==> digits_value(s.push(c), 16)
            == Some((16 * hi + (c as u32 - 0x30)) as nat),
        digits_value(s, 16) == Some(hi) && 'a' <= c <= 'f' ==> digits_value(s.push(c), 16)
            == Some((16 * hi + 10 + (c as u32 - 0x61)) as nat),
        digits_value(s, 16) == Some(hi) && 'A' <= c <= 'F' ==> digits_value(s.push(c), 16)
            == Some((16 * hi + 10 + (c as u32 - 0x41)) as nat),
        digits_value(Seq::empty(), 10) == Some(0nat),
        digits_value(Seq::empty(), 16) == Some(0nat),
        !('0' <= c <= '9') ==> digits_value(s.push(c), 10) is None,
{
    assert(s.push(c).drop_last() =~= s);
}

/// A number reads as the value of its digits wherever that is not too large,
/// with or without a plus sign, and nothing else reads as a number.
pub proof fn numbers_read_as_their_digits(s: Seq<char>, radix: nat, max: nat)
    requires
        s.len() > 0,
        s[0] != '+',
    ensures
        unsigned(s, radix, max) == (match digits_value(s, radix) {
            Some(v) if v <= max => Some(v),
            _ => None,
        }),
        unsigned(seq!['+'] + s, radix, max) == unsigned(s, radix, max),
        unsigned(Seq::empty(), radix, max) is None,
{
    assert((seq!['+'] + s).skip(1) =~= s);
}

proof fn lemma_trim_start(s: Seq<char>) -> (k: int)
    ensures
        0 <= k <= s.len(),
        trim_start(s) == s.skip(k),
        forall|i: int| 0 <= i < k ==> is_white(#[trigger] s[i]),
        k < s.len() ==> !is_white(s[k]),
    decreases s.len(),
{
    if s.len() > 0 && is_white(s[0]) {
        let k = lemma_trim_start(s.drop_first());
        assert(s.drop_first().skip(k) =~= s.skip(k + 1));
        assert forall|i: int| 0 <= i < k + 1 implies is_white(#[trigger] s[i]) by {
            if i > 0 {
                assert(s.drop_first()[i - 1] == s[i]);
            }
        }
        k + 1
    } else {
        assert(s.skip(0) =~= s);
        0
    }
}

proof fn lemma_trim_end(s: Seq<char>) -> (k: int)
    ensures
        0 <= k <= s.len(),
        trim_end(s) == s.take(k),
        forall|i: int| k <= i < s.len() ==> is_white(#[trigger] s[i]),
        k > 0 ==> !is_white(s[k - 1]),
    decreases s.len(),
{
    if s.len() > 0 && is_white(s.last()) {
        let k = lemma_trim_end(s.drop_last());
        assert(s.drop_last().take(k) =~= s.take(k));
        assert forall|i: int| k <= i < s.len() implies is_white(#[trigger] s[i]) by {
            if i < s.len() - 1 {
                assert(s.drop_last()[i] == s[i]);
            }
        }
        k
    } else {
        assert(s.take(s.len() as int) =~= s);
        s.len() as int
    }
}

/// Trimming takes white space off both ends and nothing else, and blanks, tabs
/// and line ends are white space, and letters, digits and signs are not.
pub proof fn trimming_takes_white_space_alone(s: Seq<char>, c: char)
    ensures
        exists|a: int, b: int|
            #![trigger s.subrange(a, b)]
            0 <= a <= b <= s.len() && trim(s) == s.subrange(a, b) && (forall|i: int|
                0 <= i < s.len() && !(a <= i < b) ==> is_white(#[trigger] s[i])),
        trim(s).len() > 0 ==> !is_white(trim(s)[0]) && !is_white(trim(s).last()),
        c == ' ' || c == '\t' || c == '\n' || c == '\r' ==> is_white(c),
        '!' <= c <= '~' ==> !is_white(c),
{
    let a = lemma_trim_start(s);
    let t = s.skip(a);
    let k = lemma_trim_end(t);
    assert(t.take(k) =~= s.subrange(a, a + k));
    assert forall|i: int| 0 <= i < s.len() && !(a <= i < a + k) implies is_white(
        #[trigger] s[i],
    ) by {
        if i >= a + k {
            assert(t[i - a] == s[i]);
        }
    }
    if trim(s).len() > 0 {
        assert(trim(s)[0] == s[a]);
        assert(trim(s).last() == t[k - 1]);
    }
}

/// Joining undoes splitting, and no part of a split text holds the separator.
pub proof fn join_undoes_split(s: Seq<char>, c: char)
    ensures
        join(split(s, c), c) == s,
        forall|i: int, k: int|
            0 <= i < split(s, c).len() && 0 <= k < split(s, c)[i].len()
                ==> #[trigger] split(s, c)[i][k] != c,
    decreases s.len(),
{
    let parts = split(s, c);
    if s.len() == 0 {
        assert(s =~= Seq::empty());
    } else {
        let before = split(s.drop_last(), c);
        join_undoes_split(s.drop_last(), c);
        lemma_split_nonempty(s.drop_last(), c);
        if s.last() == c {
            assert(parts.drop_last() =~= before);
            assert(join(parts, c) =~= s);
        } else {
            assert forall|i: int, k: int|
                0 <= i < parts.len() && 0 <= k < parts[i].len() implies #[trigger] parts[i][k]
                != c by {
                if i < parts.len() - 1 || k < before[i].len() {
                    assert(before[i][k] == parts[i][k]);
                }
            }
            assert(parts.drop_last() =~= before.drop_last());
            if parts.len() == 1 {
                assert(join(parts, c) =~= s);
            } else {
                assert(join(parts, c) =~= join(before, c).push(s.last()));
                assert(join(parts, c) =~= s);
            }
        }
    }
}

} // verus!
