//! Text: decimal numbers, splitting and trimming, and small building blocks for
//! messages.

use vstd::prelude::*;

verus! {

/// The character of a decimal digit.
pub open spec fn digit(d: int) -> char {
    (48 + d) as char
}

/// A number in decimal, without leading zeros.
pub open spec fn decimal(n: int) -> Seq<char>
    decreases n,
{
    if n < 10 {
        seq![digit(n)]
    } else {
        decimal(n / 10).push(digit(n % 10))
    }
}

/// An integer in decimal, with a leading minus sign when it is negative.
pub open spec fn signed_decimal(v: int) -> Seq<char> {
    if v < 0 {
        "-"@ + decimal(-v)
    } else {
        decimal(v)
    }
}

/// `true` or `false`.
pub open spec fn truth(b: bool) -> Seq<char> {
    if b {
        "true"@
    } else {
        "false"@
    }
}

fn digit_text(d: u64) -> (t: &'static str)
    requires
        d < 10,
    ensures
        t@ == seq![digit(d as int)],
{
    proof {
        reveal_strlit("0");
        reveal_strlit("1");
        reveal_strlit("2");
        reveal_strlit("3");
        reveal_strlit("4");
        reveal_strlit("5");
        reveal_strlit("6");
        reveal_strlit("7");
        reveal_strlit("8");
        reveal_strlit("9");
    }
    let t: &'static str = if d == 0 {
        "0"
    } else if d == 1 {
        "1"
    } else if d == 2 {
        "2"
    } else if d == 3 {
        "3"
    } else if d == 4 {
        "4"
    } else if d == 5 {
        "5"
    } else if d == 6 {
        "6"
    } else if d == 7 {
        "7"
    } else if d == 8 {
        "8"
    } else {
        "9"
    };
    assert(t@ =~= seq![digit(d as int)]);
    t
}

/// Concatenation is associative.
pub proof fn lemma_join(a: Seq<char>, b: Seq<char>, c: Seq<char>)
    ensures
        a + b + c == a + (b + c),
{
    assert(a + b + c =~= a + (b + c));
}

/// Append `n` in decimal.
pub fn push_decimal(out: &mut String, n: u64)
    ensures
        final(out)@ == old(out)@ + decimal(n as int),
    decreases n,
{
    if n >= 10 {
        push_decimal(out, n / 10);
    }
    let d: u64 = n % 10;
    out.append(digit_text(d));
    proof {
        assert(out@ =~= old(out)@ + decimal(n as int));
    }
}

/// Append `v` in decimal, with its sign when it is negative.
pub fn push_signed(out: &mut String, v: i64)
    requires
        v > i64::MIN,
    ensures
        final(out)@ == old(out)@ + signed_decimal(v as int),
{
    if v < 0 {
        out.append("-");
        push_decimal(out, (-v) as u64);
    } else {
        push_decimal(out, v as u64);
    }
    assert(out@ =~= old(out)@ + signed_decimal(v as int));
}

/// Append `true` or `false`.
pub fn push_truth(out: &mut String, b: bool)
    ensures
        final(out)@ == old(out)@ + truth(b),
{
    if b {
        out.append("true");
    } else {
        out.append("false");
    }
}

/// The characters of a string.
pub fn characters(s: &str) -> (chars: Vec<char>)
    ensures
        chars@ == s@,
{
    let mut chars: Vec<char> = Vec::new();
    for c in it: s.chars()
        invariant
            it.seq() == s@,
            chars@ == s@.take(it.index()),
    {
        chars.push(c);
        assert(s@.take(it.index() + 1) =~= s@.take(it.index()).push(s@[it.index()]));
    }
    assert(s@.take(s@.len() as int) =~= s@);
    chars
}

/// Whether two texts are the same.
pub fn same(a: &str, b: &str) -> (eq: bool)
    ensures
        eq == (a@ == b@),
{
    let x = characters(a);
    let y = characters(b);
    if x.len() != y.len() {
        return false;
    }
    let mut i: usize = 0;
    while i < x.len()
        invariant
            x@ == a@,
            y@ == b@,
            x@.len() == y@.len(),
            i <= x@.len(),
            forall|j: int| 0 <= j < i ==> #[trigger] x@[j] == y@[j],
        decreases x@.len() - i,
    {
        if x[i] != y[i] {
            assert(a@[i as int] != b@[i as int]);
            return false;
        }
        i = i + 1;
    }
    assert(a@ =~= b@);
    true
}

// ---------------------------------------------------------------------------
// Splitting
// ---------------------------------------------------------------------------

/// The parts of a text between occurrences of `sep`; a text without one is one part.
pub open spec fn split(s: Seq<char>, sep: char) -> Seq<Seq<char>>
    decreases s.len(),
{
    if s.len() == 0 {
        seq![s]
    } else {
        let parts = split(s.drop_last(), sep);
        if s.last() == sep {
            parts.push(Seq::empty())
        } else {
            parts.drop_last().push(parts.last().push(s.last()))
        }
    }
}

/// What a list of texts holds.
pub open spec fn views(parts: Seq<&str>) -> Seq<Seq<char>> {
    Seq::new(parts.len(), |j: int| parts[j]@)
}

pub proof fn lemma_split_nonempty(s: Seq<char>, sep: char)
    ensures
        split(s, sep).len() >= 1,
    decreases s.len(),
{
    if s.len() > 0 {
        lemma_split_nonempty(s.drop_last(), sep);
    }
}

/// A text without the separator is its own only part.
pub proof fn lemma_split_whole(s: Seq<char>, sep: char)
    requires
        !s.contains(sep),
    ensures
        split(s, sep) == seq![s],
    decreases s.len(),
{
    if s.len() > 0 {
        let front = s.drop_last();
        assert(!front.contains(sep)) by {
            if front.contains(sep) {
                let j = choose|j: int| 0 <= j < front.len() && front[j] == sep;
                assert(s[j] == sep);
            }
        }
        assert(s[s.len() - 1] != sep);
        lemma_split_whole(front, sep);
        assert(front.push(s.last()) =~= s);
        assert(split(s, sep) =~= seq![s]);
    }
}

/// The parts of two texts with a separator between them are those of both.
pub proof fn lemma_split_join(a: Seq<char>, b: Seq<char>, sep: char)
    ensures
        split(a.push(sep) + b, sep) == split(a, sep) + split(b, sep),
    decreases b.len(),
{
    let whole = a.push(sep) + b;
    if b.len() == 0 {
        assert(whole =~= a.push(sep));
        assert(whole.drop_last() =~= a);
        assert(b =~= Seq::<char>::empty());
        assert(split(whole, sep) =~= split(a, sep) + split(b, sep));
    } else {
        let front = b.drop_last();
        lemma_split_join(a, front, sep);
        lemma_split_nonempty(front, sep);
        assert(whole.drop_last() =~= a.push(sep) + front);
        assert(whole.last() == b.last());
        let left = split(a, sep);
        let right = split(front, sep);
        let parts = left + right;
        assert(parts.last() == right.last());
        assert(parts.drop_last() =~= left + right.drop_last());
        assert(split(whole, sep) =~= left + split(b, sep));
    }
}

/// The parts of `s` between occurrences of `sep`.
pub fn split_on<'a>(s: &'a str, sep: char) -> (parts: Vec<&'a str>)
    ensures
        views(parts@) == split(s@, sep),
        parts@.len() >= 1,
{
    let chars = characters(s);
    let mut parts: Vec<&'a str> = Vec::new();
    let mut start: usize = 0;
    let mut i: usize = 0;
    assert(s@.take(0) =~= Seq::<char>::empty());
    assert(s@.subrange(0, 0) =~= Seq::<char>::empty());
    while i < chars.len()
        invariant
            chars@ == s@,
            start <= i <= s@.len(),
            split(s@.take(i as int), sep).len() >= 1,
            views(parts@) == split(s@.take(i as int), sep).drop_last(),
            s@.subrange(start as int, i as int) == split(s@.take(i as int), sep).last(),
        decreases s@.len() - i,
    {
        let ghost done = s@.take(i as int);
        let ghost next = s@.take(i + 1);
        let ghost before = parts@;
        assert(next.drop_last() =~= done);
        assert(next.last() == s@[i as int]);
        let c = chars[i];
        if c == sep {
            let part = s.substring_char(start, i);
            parts.push(part);
            start = i + 1;
            proof {
                assert(views(parts@) =~= views(before).push(part@));
                assert(split(next, sep).drop_last() =~= split(done, sep));
                assert(views(parts@) =~= split(done, sep));
                assert(s@.subrange(start as int, i + 1) =~= Seq::<char>::empty());
            }
        } else {
            proof {
                assert(split(next, sep).drop_last() =~= split(done, sep).drop_last());
                assert(s@.subrange(start as int, i + 1) =~= s@.subrange(
                    start as int,
                    i as int,
                ).push(c));
            }
        }
        i = i + 1;
    }
    assert(s@.take(i as int) =~= s@);
    let ghost before = parts@;
    let part = s.substring_char(start, i);
    parts.push(part);
    proof {
        assert(views(parts@) =~= views(before).push(part@));
        assert(split(s@, sep) =~= split(s@, sep).drop_last().push(split(s@, sep).last()));
    }
    parts
}

// ---------------------------------------------------------------------------
// Trimming
// ---------------------------------------------------------------------------

/// A character with the Unicode property White_Space.
pub open spec fn is_space(c: char) -> bool {
    let x = c as int;
    ||| 0x9 <= x <= 0xD
    ||| x == 0x20
    ||| x == 0x85
    ||| x == 0xA0
    ||| x == 0x1680
    ||| 0x2000 <= x <= 0x200A
    ||| x == 0x2028
    ||| x == 0x2029
    ||| x == 0x202F
    ||| x == 0x205F
    ||| x == 0x3000
}

/// A text without leading white space.
pub open spec fn trim_start(s: Seq<char>) -> Seq<char>
    decreases s.len(),
{
    if s.len() > 0 && is_space(s.first()) {
        trim_start(s.drop_first())
    } else {
        s
    }
}

/// A text without trailing white space.
pub open spec fn trim_end(s: Seq<char>) -> Seq<char>
    decreases s.len(),
{
    if s.len() > 0 && is_space(s.last()) {
        trim_end(s.drop_last())
    } else {
        s
    }
}

/// A text without leading and trailing white space.
pub open spec fn trimmed(s: Seq<char>) -> Seq<char> {
    trim_end(trim_start(s))
}

fn is_space_char(c: char) -> (space: bool)
    ensures
        space == is_space(c),
{
    let x: u32 = c as u32;
    (0x9 <= x && x <= 0xD) || x == 0x20 || x == 0x85 || x == 0xA0 || x == 0x1680 || (0x2000 <= x
        && x <= 0x200A) || x == 0x2028 || x == 0x2029 || x == 0x202F || x == 0x205F || x == 0x3000
}

/// `s` without leading and trailing white space.
pub fn trim<'a>(s: &'a str) -> (t: &'a str)
    ensures
        t@ == trimmed(s@),
{
    let chars = characters(s);
    let len: usize = chars.len();
    let mut from: usize = 0;
    assert(s@.subrange(0, len as int) =~= s@);
    while from < len && is_space_char(chars[from])
        invariant
            chars@ == s@,
            len == s@.len(),
            from <= len,
            trim_start(s@) == trim_start(s@.subrange(from as int, len as int)),
        decreases len - from,
    {
        assert(s@.subrange(from as int, len as int).drop_first() =~= s@.subrange(
            from + 1,
            len as int,
        ));
        from = from + 1;
    }
    assert(trim_start(s@) == s@.subrange(from as int, len as int));
    let mut to: usize = len;
    while to > from && is_space_char(chars[to - 1])
        invariant
            chars@ == s@,
            len == s@.len(),
            from <= to <= len,
            trimmed(s@) == trim_end(s@.subrange(from as int, to as int)),
        decreases to,
    {
        assert(s@.subrange(from as int, to as int).drop_last() =~= s@.subrange(
            from as int,
            to - 1,
        ));
        to = to - 1;
    }
    s.substring_char(from, to)
}

// ---------------------------------------------------------------------------
// Numbers
// ---------------------------------------------------------------------------

/// The code point of a character.
pub fn code(c: char) -> (x: u32)
    ensures
        x == c as int,
{
    c as u32
}

/// A decimal digit.
pub open spec fn is_digit(c: char) -> bool {
    48 <= c as int <= 57
}

/// Only decimal digits.
pub open spec fn all_digits(s: Seq<char>) -> bool {
    forall|j: int| 0 <= j < s.len() ==> is_digit(#[trigger] s[j])
}

/// The number that decimal digits spell.
pub open spec fn digits_value(s: Seq<char>) -> int
    decreases s.len(),
{
    if s.len() == 0 {
        0
    } else {
        digits_value(s.drop_last()) * 10 + (s.last() as int - 48)
    }
}

/// A text without one leading plus sign.
pub open spec fn unsigned_part(s: Seq<char>) -> Seq<char> {
    if s.len() > 0 && s.first() == '+' {
        s.drop_first()
    } else {
        s
    }
}

/// The number up to `max` that a text spells, if it does: decimal digits, perhaps after
/// a plus sign.
pub open spec fn number(s: Seq<char>, max: int) -> Option<int> {
    let d = unsigned_part(s);
    if d.len() > 0 && all_digits(d) && digits_value(d) <= max {
        Some(digits_value(d))
    } else {
        None
    }
}

proof fn lemma_digits_value_grows(s: Seq<char>, k: int)
    requires
        all_digits(s),
        0 <= k <= s.len(),
    ensures
        0 <= digits_value(s.take(k)) <= digits_value(s),
    decreases s.len() - k,
{
    if k < s.len() {
        lemma_digits_value_grows(s, k + 1);
        assert(s.take(k + 1).drop_last() =~= s.take(k));
        assert(is_digit(s[k]));
        lemma_digits_value_nonneg(s.take(k));
    } else {
        assert(s.take(k) =~= s);
        lemma_digits_value_nonneg(s);
    }
}

proof fn lemma_digits_value_nonneg(s: Seq<char>)
    requires
        all_digits(s),
    ensures
        digits_value(s) >= 0,
    decreases s.len(),
{
    if s.len() > 0 {
        assert forall|j: int| 0 <= j < s.drop_last().len() implies is_digit(
            #[trigger] s.drop_last()[j],
        ) by {
            assert(s.drop_last()[j] == s[j]);
        }
        lemma_digits_value_nonneg(s.drop_last());
        assert(is_digit(s[s.len() - 1]));
    }
}

/// The number up to `max` that `s` spells, if it does.
pub fn parse_number(s: &str, max: u64) -> (v: Option<u64>)
    ensures
        match v {
            Some(v) => number(s@, max as int) == Some(v as int),
            None => number(s@, max as int) is None,
        },
        v matches Some(v) ==> v <= max,
{
    let chars = characters(s);
    let ghost d = unsigned_part(s@);
    let from: usize = if chars.len() > 0 && chars[0] == '+' {
        1
    } else {
        0
    };
    assert(d =~= s@.subrange(from as int, s@.len() as int));
    if from == chars.len() {
        return None;
    }
    let mut v: u64 = 0;
    let mut i: usize = from;
    assert(d.take(0) =~= Seq::<char>::empty());
    while i < chars.len()
        invariant
            chars@ == s@,
            from <= i <= s@.len(),
            d == unsigned_part(s@),
            d == s@.subrange(from as int, s@.len() as int),
            d.len() > 0,
            v <= max,
            v == digits_value(d.take(i - from)),
            forall|j: int| 0 <= j < i - from ==> is_digit(#[trigger] d[j]),
        decreases s@.len() - i,
    {
        let c: u32 = code(chars[i]);
        let ghost k = i - from;
        assert(d[k] == chars@[i as int]);
        assert(d.take(k + 1).drop_last() =~= d.take(k));
        if c < 48 || c > 57 {
            assert(!is_digit(d[k]));
            return None;
        }
        let digit: u64 = (c - 48) as u64;
        if digit > max || v > (max - digit) / 10 {
            proof {
                if all_digits(d) {
                    lemma_digits_value_grows(d, k + 1);
                    assert(digits_value(d.take(k + 1)) == v * 10 + digit);
                }
            }
            return None;
        }
        v = v * 10 + digit;
        i = i + 1;
    }
    assert(d.take(d.len() as int) =~= d);
    Some(v)
}

/// A number written in decimal is read back.
pub proof fn lemma_decimal(n: int)
    requires
        n >= 0,
    ensures
        decimal(n).len() > 0,
        all_digits(decimal(n)),
        digits_value(decimal(n)) == n,
    decreases n,
{
    let s = decimal(n);
    if n < 10 {
        assert(s.drop_last() =~= Seq::<char>::empty());
        assert(s[0] == digit(n));
        assert(digits_value(s.drop_last()) == 0);
    } else {
        lemma_decimal(n / 10);
        assert(s.drop_last() =~= decimal(n / 10));
        assert forall|j: int| 0 <= j < s.len() implies is_digit(#[trigger] s[j]) by {
            if j < s.len() - 1 {
                assert(s[j] == decimal(n / 10)[j]);
            }
        }
    }
}

// ---------------------------------------------------------------------------
// Laws of text
// ---------------------------------------------------------------------------

/// Ten to the power `k`.
pub open spec fn ten_to(k: int) -> int
    decreases k,
{
    if k <= 0 {
        1
    } else {
        10 * ten_to(k - 1)
    }
}

proof fn lemma_tens(n: int, k: int)
    requires
        n >= 0,
        k >= 0,
    ensures
        ten_to(k) >= 1,
        (n / 10) / ten_to(k) == n / ten_to(k + 1),
    decreases k,
{
    if k > 0 {
        lemma_tens(n, k - 1);
    }
    let t = ten_to(k);
    assert((n / 10) / t == n / (10 * t)) by (nonlinear_arith)
        requires
            n >= 0,
            t >= 1,
    ;
}

/// A number in decimal: the character that is `k` places from the right is the digit of the
/// number for that power of ten, and the first is no zero but for the number zero.
pub proof fn lemma_decimal_places(n: int)
    requires
        n >= 0,
    ensures
        forall|k: int|
            0 <= k < decimal(n).len() ==> #[trigger] decimal(n)[decimal(n).len() - 1 - k] as int
                == 48 + (n / ten_to(k)) % 10,
        ten_to(decimal(n).len() as int) > n,
        n > 0 ==> ten_to(decimal(n).len() - 1) <= n,
        n == 0 ==> decimal(n).len() == 1,
        decimal(n).len() >= 1,
    decreases n,
{
    let s = decimal(n);
    if n < 10 {
        assert(ten_to(0) == 1);
        assert(ten_to(1) == 10);
        assert forall|k: int| 0 <= k < s.len() implies #[trigger] s[s.len() - 1 - k] as int == 48 + (
        n / ten_to(k)) % 10 by {
            assert(k == 0);
            assert(s[0] == digit(n));
            assert(n / 1 == n);
        }
    } else {
        let m = n / 10;
        lemma_decimal_places(m);
        let len = decimal(m).len() as int;
        assert(s.len() == len + 1);
        assert forall|k: int| 0 <= k < s.len() implies #[trigger] s[s.len() - 1 - k] as int == 48 + (
        n / ten_to(k)) % 10 by {
            if k == 0 {
                assert(s[s.len() - 1] == digit(n % 10));
                assert(ten_to(0) == 1);
                assert(n / 1 == n);
            } else {
                lemma_tens(n, k - 1);
                assert(s[s.len() - 1 - k] == decimal(m)[len - 1 - (k - 1)]);
            }
        }
    }
}

/// A signed number: the digits of its magnitude, after a minus sign if it is negative.
pub proof fn lemma_signed_decimal(v: int)
    ensures
        v >= 0 ==> signed_decimal(v) == decimal(v),
        v < 0 ==> signed_decimal(v).len() == decimal(-v).len() + 1 && signed_decimal(v)[0] == '-'
            && signed_decimal(v).skip(1) == decimal(-v),
        v != 0 ==> signed_decimal(v) != signed_decimal(-v),
{
    reveal_strlit("-");
    if v < 0 {
        assert(signed_decimal(v).skip(1) =~= decimal(-v));
        lemma_decimal(-v);
        assert(is_digit(decimal(-v)[0]));
    } else if v > 0 {
        lemma_decimal(v);
        assert(signed_decimal(-v)[0] == '-');
        assert(is_digit(decimal(v)[0]));
    }
}

/// Parts of a text with a separator between them.
pub open spec fn rejoined(parts: Seq<Seq<char>>, sep: char) -> Seq<char>
    decreases parts.len(),
{
    if parts.len() == 0 {
        Seq::empty()
    } else if parts.len() == 1 {
        parts[0]
    } else {
        rejoined(parts.drop_last(), sep).push(sep) + parts.last()
    }
}

/// Splitting a text finds the parts that hold no separator and give the text back when they
/// are joined.
pub proof fn lemma_split(s: Seq<char>, sep: char)
    ensures
        rejoined(split(s, sep), sep) == s,
        split(s, sep).len() >= 1,
        forall|j: int| 0 <= j < split(s, sep).len() ==> !(#[trigger] split(s, sep)[j]).contains(sep),
    decreases s.len(),
{
    let parts = split(s, sep);
    if s.len() == 0 {
        assert(parts[0] == s);
        assert(rejoined(parts, sep) == s);
    } else {
        let front = s.drop_last();
        let before = split(front, sep);
        lemma_split(front, sep);
        assert(front.push(s.last()) =~= s);
        if s.last() == sep {
            assert(parts.drop_last() =~= before);
            assert(rejoined(parts, sep) =~= s);
            assert forall|j: int| 0 <= j < parts.len() implies !(#[trigger] parts[j]).contains(sep) by {
                if j < before.len() {
                    assert(parts[j] == before[j]);
                }
            }
        } else {
            assert(parts.len() == before.len());
            assert(parts.drop_last() =~= before.drop_last());
            assert(parts.last() == before.last().push(s.last()));
            if before.len() == 1 {
                assert(rejoined(before, sep) == before[0]);
                assert(rejoined(parts, sep) == parts[0]);
            } else {
                assert(rejoined(parts, sep) =~= rejoined(before, sep).push(s.last()));
            }
            assert forall|j: int| 0 <= j < parts.len() implies !(#[trigger] parts[j]).contains(sep) by {
                if j < before.len() - 1 {
                    assert(parts[j] == before[j]);
                } else {
                    let last = before[j];
                    assert(!last.contains(sep));
                    if parts[j].contains(sep) {
                        let x = choose|x: int| 0 <= x < parts[j].len() && parts[j][x] == sep;
                        assert(x < last.len());
                        assert(last[x] == sep);
                    }
                }
            }
        }
    }
}

proof fn lemma_trim_start_parts(s: Seq<char>) -> (k: int)
    ensures
        0 <= k <= s.len(),
        trim_start(s) == s.skip(k),
        forall|j: int| 0 <= j < k ==> is_space(#[trigger] s[j]),
        k < s.len() ==> !is_space(s[k]),
    decreases s.len(),
{
    if s.len() > 0 && is_space(s.first()) {
        let rest = s.drop_first();
        let k = lemma_trim_start_parts(rest);
        assert(s.skip(k + 1) =~= rest.skip(k));
        assert forall|j: int| 0 <= j < k + 1 implies is_space(#[trigger] s[j]) by {
            if j > 0 {
                assert(rest[j - 1] == s[j]);
            }
        }
        if k < rest.len() {
            assert(rest[k] == s[k + 1]);
        }
        k + 1
    } else {
        assert(s.skip(0) =~= s);
        0
    }
}

proof fn lemma_trim_end_parts(s: Seq<char>) -> (k: int)
    ensures
        0 <= k <= s.len(),
        trim_end(s) == s.take(k),
        forall|j: int| k <= j < s.len() ==> is_space(#[trigger] s[j]),
        k > 0 ==> !is_space(s[k - 1]),
    decreases s.len(),
{
    if s.len() > 0 && is_space(s.last()) {
        let rest = s.drop_last();
        let k = lemma_trim_end_parts(rest);
        assert(s.take(k) =~= rest.take(k));
        assert forall|j: int| k <= j < s.len() implies is_space(#[trigger] s[j]) by {
            if j < rest.len() {
                assert(rest[j] == s[j]);
            }
        }
        if k > 0 {
            assert(rest[k - 1] == s[k - 1]);
        }
        k
    } else {
        assert(s.take(s.len() as int) =~= s);
        s.len() as int
    }
}

/// Trimming a text takes white space off both ends, and all of it: what is left is the part
/// from `a` up to `b`, and does not begin or end with white space.
pub proof fn lemma_trimmed(s: Seq<char>) -> (cut: (int, int))
    ensures
        ({
            let (a, b) = cut;
            &&& 0 <= a <= b <= s.len()
            &&& trimmed(s) == s.subrange(a, b)
            &&& forall|j: int| 0 <= j < a || b <= j < s.len() ==> is_space(#[trigger] s[j])
            &&& a < b ==> !is_space(s[a]) && !is_space(s[b - 1])
        }),
        is_space(' ') && is_space('\t') && is_space('\n') && is_space('\r'),
        forall|c: char| 33 <= c as int <= 126 ==> !#[trigger] is_space(c),
{
    let a = lemma_trim_start_parts(s);
    let t = s.skip(a);
    let k = lemma_trim_end_parts(t);
    let b = a + k;
    assert(t.take(k) =~= s.subrange(a, b));
    assert forall|j: int| 0 <= j < a || b <= j < s.len() implies is_space(#[trigger] s[j]) by {
        if b <= j {
            assert(t[j - a] == s[j]);
        }
    }
    if a < b {
        assert(t[k - 1] == s[b - 1]);
    }
    (a, b)
}

/// Which texts are numbers: exactly those of decimal digits, at least one and perhaps after
/// a plus sign, that spell no more than `max`. What is written in decimal is read as it was
/// meant.
pub proof fn lemma_number(n: int, max: int, s: Seq<char>)
    requires
        n >= 0,
    ensures
        number(decimal(n), max) == if n <= max {
            Some(n)
        } else {
            None
        },
        number(seq!['+'] + decimal(n), max) == number(decimal(n), max),
        number(Seq::empty(), max) is None,
        number(s, max) matches Some(v) ==> v <= max && v >= 0,
        (exists|j: int|
            0 <= j < s.len() && !(48 <= (#[trigger] s[j]) as int <= 57) && !(j == 0 && s[j] == '+'))
            ==> number(s, max) is None,
        all_digits(s) && s.len() > 0 && n < 10 ==> digits_value(s.push(digit(n))) == 10
            * digits_value(s) + n,
{
    let d = decimal(n);
    lemma_decimal(n);
    assert(is_digit(d[0]));
    assert(unsigned_part(d) == d);
    let p = seq!['+'] + d;
    assert(p.first() == '+');
    assert(p.drop_first() =~= d);
    if number(s, max) is Some {
        lemma_digits_value_nonneg(unsigned_part(s));
    }
    if exists|j: int|
        0 <= j < s.len() && !(48 <= (#[trigger] s[j]) as int <= 57) && !(j == 0 && s[j] == '+') {
        let j = choose|j: int|
            0 <= j < s.len() && !(48 <= (#[trigger] s[j]) as int <= 57) && !(j == 0 && s[j] == '+');
        let u = unsigned_part(s);
        if s.first() == '+' {
            assert(u[j - 1] == s[j]);
        }
    }
    assert(s.push(digit(n)).drop_last() =~= s);
}

} // verus!
