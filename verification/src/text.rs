//! Verified operations on text: equality, order, search, case folding,
//! trimming and decimal numbers. Text is seen as a sequence of characters.

use vstd::prelude::*;

verus! {

/// `a` comes before `b` in the order of Unicode scalar values, character by
/// character (which is also the order of the UTF-8 encodings).
pub open spec fn lex_less(a: Seq<char>, b: Seq<char>) -> bool
    decreases a.len(),
{
    if b.len() == 0 {
        false
    } else if a.len() == 0 {
        true
    } else if a[0] != b[0] {
        (a[0] as int) < (b[0] as int)
    } else {
        lex_less(a.drop_first(), b.drop_first())
    }
}

/// The order is irreflexive and total, and never holds both ways.
pub proof fn lemma_lex_less_total(a: Seq<char>, b: Seq<char>)
    ensures
        lex_less(a, b) || lex_less(b, a) || a == b,
        !(lex_less(a, b) && lex_less(b, a)),
        a == b ==> !lex_less(a, b),
    decreases a.len(),
{
    if a.len() > 0 && b.len() > 0 && a[0] == b[0] {
        lemma_lex_less_total(a.drop_first(), b.drop_first());
        if a.drop_first() == b.drop_first() {
            assert(a =~= seq![a[0]] + a.drop_first());
            assert(b =~= seq![b[0]] + b.drop_first());
        }
    } else if a.len() == 0 && b.len() == 0 {
        assert(a =~= b);
    }
}

/// The order is transitive.
pub proof fn lemma_lex_less_transitive(a: Seq<char>, b: Seq<char>, c: Seq<char>)
    requires
        lex_less(a, b),
        lex_less(b, c),
    ensures
        lex_less(a, c),
    decreases a.len(),
{
    if a.len() > 0 && b.len() > 0 && c.len() > 0 && a[0] == b[0] && b[0] == c[0] {
        lemma_lex_less_transitive(a.drop_first(), b.drop_first(), c.drop_first());
    }
}

/// `needle` occurs in `s` starting at position `at`.
pub open spec fn occurs_at(s: Seq<char>, needle: Seq<char>, at: int) -> bool {
    &&& 0 <= at
    &&& at + needle.len() <= s.len()
    &&& s.subrange(at, at + needle.len()) == needle
}

/// `needle` occurs somewhere in `s`.
pub open spec fn has_substring(s: Seq<char>, needle: Seq<char>) -> bool {
    exists|at: int| occurs_at(s, needle, at)
}

/// Unicode `White_Space`.
#[verifier::opaque]
pub open spec fn is_space(c: char) -> bool {
    let n = c as int;
    ||| 0x9 <= n <= 0xD
    ||| n == 0x20
    ||| n == 0x85
    ||| n == 0xA0
    ||| n == 0x1680
    ||| 0x2000 <= n <= 0x200A
    ||| n == 0x2028
    ||| n == 0x2029
    ||| n == 0x202F
    ||| n == 0x205F
    ||| n == 0x3000
}

/// `t` is `s` without its leading and trailing white space.
pub open spec fn trimmed(s: Seq<char>) -> Seq<char>
    decreases s.len(),
{
    if s.len() > 0 && is_space(s[0]) {
        trimmed(s.drop_first())
    } else if s.len() > 0 && is_space(s.last()) {
        trimmed(s.drop_last())
    } else {
        s
    }
}

/// ASCII upper case; every other character is left alone.
pub open spec fn upper(c: char) -> char {
    if 0x61 <= c as int <= 0x7A {
        ((c as int) - 0x20) as char
    } else {
        c
    }
}

/// `s` in ASCII upper case.
pub open spec fn uppercase(s: Seq<char>) -> Seq<char> {
    s.map_values(|c: char| upper(c))
}

/// The characters of `s`, in order.
pub fn characters(s: &str) -> (v: Vec<char>)
    ensures
        v@ == s@,
{
    let mut v: Vec<char> = Vec::new();
    for c in it: s.chars()
        invariant
            v@ == s@.take(it.index() as int),
            it.seq() == s@,
    {
        v.push(c);
        assert(s@.take(it.index() as int).push(c) =~= s@.take(it.index() as int + 1));
    }
    assert(s@.take(s@.len() as int) =~= s@);
    v
}

/// The Unicode scalar value of `c`.
fn code_point(c: char) -> (n: u32)
    ensures
        n == c as int,
{
    c as u32
}

/// Do the two texts hold the same characters?
pub fn same(a: &str, b: &str) -> (r: bool)
    ensures
        r == (a@ == b@),
{
    a.to_owned() == b.to_owned()
}

/// Does `a` come before `b`?
pub fn less(a: &str, b: &str) -> (r: bool)
    ensures
        r == lex_less(a@, b@),
{
    let x = characters(a);
    let y = characters(b);
    let mut i: usize = 0;
    assert(a@.skip(0) =~= a@);
    assert(b@.skip(0) =~= b@);
    while i < x.len() && i < y.len()
        invariant
            x@ == a@,
            y@ == b@,
            i <= x.len(),
            i <= y.len(),
            lex_less(a@, b@) == lex_less(a@.skip(i as int), b@.skip(i as int)),
        decreases x.len() - i,
    {
        if x[i] != y[i] {
            return code_point(x[i]) < code_point(y[i]);
        }
        assert(a@.skip(i as int).drop_first() =~= a@.skip(i as int + 1));
        assert(b@.skip(i as int).drop_first() =~= b@.skip(i as int + 1));
        i = i + 1;
    }
    i < y.len()
}

/// Does `s` begin with `prefix`?
pub fn starts_with(s: &str, prefix: &str) -> (r: bool)
    ensures
        r == prefix@.is_prefix_of(s@),
{
    let x = characters(s);
    let y = characters(prefix);
    if y.len() > x.len() {
        return false;
    }
    let mut i: usize = 0;
    while i < y.len()
        invariant
            x@ == s@,
            y@ == prefix@,
            i <= y.len() <= x.len(),
            forall|k: int| 0 <= k < i ==> x@[k] == y@[k],
        decreases y.len() - i,
    {
        if x[i] != y[i] {
            assert(s@.subrange(0, prefix@.len() as int)[i as int] != prefix@[i as int]);
            return false;
        }
        i = i + 1;
    }
    assert(prefix@ =~= s@.subrange(0, prefix@.len() as int));
    true
}

/// Does `needle` occur in `s`?
pub fn contains(s: &str, needle: &str) -> (r: bool)
    ensures
        r == has_substring(s@, needle@),
{
    let x = characters(s);
    let y = characters(needle);
    if y.len() > x.len() {
        return false;
    }
    let mut at: usize = 0;
    while at <= x.len() - y.len()
        invariant
            x@ == s@,
            y@ == needle@,
            y.len() <= x.len(),
            at <= x.len() - y.len() + 1,
            forall|k: int| k < at ==> !occurs_at(s@, needle@, k),
        decreases x.len() - y.len() + 1 - at,
    {
        let mut i: usize = 0;
        while i < y.len() && x[at + i] == y[i]
            invariant
                x@ == s@,
                y@ == needle@,
                at + y.len() <= x.len(),
                i <= y.len(),
                forall|k: int| 0 <= k < i ==> x@[at + k] == y@[k],
            decreases y.len() - i,
        {
            i = i + 1;
        }
        if i == y.len() {
            assert(s@.subrange(at as int, at + needle@.len()) =~= needle@);
            assert(occurs_at(s@, needle@, at as int));
            return true;
        }
        assert(s@.subrange(at as int, at + needle@.len())[i as int] != needle@[i as int]);
        at = at + 1;
    }
    false
}

/// `c` in ASCII upper case.
pub fn to_upper(c: char) -> (r: char)
    ensures
        r == upper(c),
{
    let n: u32 = c as u32;
    if 0x61 <= n && n <= 0x7A {
        let b: u8 = (n - 0x20) as u8;
        b as char
    } else {
        c
    }
}

/// Is `c` white space?
pub fn is_white_space(c: char) -> (r: bool)
    ensures
        r == is_space(c),
{
    reveal(is_space);
    let n: u32 = c as u32;
    (0x9 <= n && n <= 0xD) || n == 0x20 || n == 0x85 || n == 0xA0 || n == 0x1680 || (0x2000 <= n && n
        <= 0x200A) || n == 0x2028 || n == 0x2029 || n == 0x202F || n == 0x205F || n == 0x3000
}

/// `s` without leading and trailing white space.
pub fn trim(s: &str) -> (r: &str)
    ensures
        r@ == trimmed(s@),
{
    let x = characters(s);
    let mut from: usize = 0;
    let mut to: usize = x.len();
    assert(s@.subrange(0, to as int) =~= s@);
    while from < to && is_white_space(x[from])
        invariant
            x@ == s@,
            from <= to == x.len(),
            trimmed(s@) == trimmed(s@.subrange(from as int, to as int)),
        decreases to - from,
    {
        assert(s@.subrange(from as int, to as int).drop_first() =~= s@.subrange(
            from as int + 1,
            to as int,
        ));
        from = from + 1;
    }
    while from < to && is_white_space(x[to - 1])
        invariant
            x@ == s@,
            from <= to <= x.len(),
            from < to ==> !is_space(x@[from as int]),
            trimmed(s@) == trimmed(s@.subrange(from as int, to as int)),
        decreases to - from,
    {
        assert(s@.subrange(from as int, to as int).drop_last() =~= s@.subrange(
            from as int,
            to as int - 1,
        ));
        to = to - 1;
    }
    assert(trimmed(s@.subrange(from as int, to as int)) == s@.subrange(from as int, to as int));
    s.substring_char(from, to)
}

/// Are `s`, in ASCII upper case, and `word` the same?
pub fn is_uppercased(s: &str, word: &str) -> (r: bool)
    ensures
        r == (uppercase(s@) == word@),
{
    let x = characters(s);
    let y = characters(word);
    if x.len() != y.len() {
        assert(uppercase(s@).len() == s@.len());
        return false;
    }
    let mut i: usize = 0;
    while i < x.len()
        invariant
            x@ == s@,
            y@ == word@,
            i <= x.len() == y.len(),
            forall|k: int| 0 <= k < i ==> upper(x@[k]) == y@[k],
        decreases x.len() - i,
    {
        if to_upper(x[i]) != y[i] {
            assert(uppercase(s@)[i as int] != word@[i as int]);
            return false;
        }
        i = i + 1;
    }
    assert(uppercase(s@) =~= word@);
    true
}

/// `c` is one of `0` to `9`.
pub open spec fn is_digit(c: char) -> bool {
    0x30 <= c as int <= 0x39
}

/// One or more decimal digits, and nothing else.
pub open spec fn all_digits(s: Seq<char>) -> bool {
    s.len() > 0 && forall|i: int| 0 <= i < s.len() ==> is_digit(#[trigger] s[i])
}

/// The number that decimal digits denote.
pub open spec fn decimal_value(s: Seq<char>) -> int
    decreases s.len(),
{
    if s.len() == 0 {
        0
    } else {
        decimal_value(s.drop_last()) * 10 + (s.last() as int - 0x30)
    }
}

/// The text without one leading `+`.
pub open spec fn without_plus(s: Seq<char>) -> Seq<char> {
    if s.len() > 0 && s[0] == '+' {
        s.drop_first()
    } else {
        s
    }
}

/// The unsigned integer that `s` denotes: an optional `+`, then one or more
/// decimal digits; `None` if it is written otherwise or exceeds `max`.
pub open spec fn unsigned_value(s: Seq<char>, max: int) -> Option<int> {
    let digits = without_plus(s);
    if all_digits(digits) && decimal_value(digits) <= max {
        Some(decimal_value(digits))
    } else {
        None
    }
}

/// The signed integer that `s` denotes: as for an unsigned one, or a `-`
/// followed by digits; `None` if it lies outside `min..=max`.
pub open spec fn signed_value(s: Seq<char>, min: int, max: int) -> Option<int> {
    if s.len() > 0 && s[0] == '-' {
        if all_digits(s.drop_first()) && min <= -decimal_value(s.drop_first()) {
            Some(-decimal_value(s.drop_first()))
        } else {
            None
        }
    } else {
        unsigned_value(s, max)
    }
}

proof fn lemma_decimal_value_grows(s: Seq<char>, i: int)
    requires
        0 <= i <= s.len(),
        forall|k: int| 0 <= k < s.len() ==> is_digit(#[trigger] s[k]),
    ensures
        0 <= decimal_value(s.take(i)) <= decimal_value(s),
    decreases s.len(),
{
    if i == s.len() {
        assert(s.take(i) =~= s);
        if s.len() > 0 {
            assert(is_digit(s[s.len() - 1]));
            lemma_decimal_value_grows(s.drop_last(), s.len() - 1);
            assert(s.drop_last().take(s.len() - 1) =~= s.drop_last());
        }
    } else {
        assert(is_digit(s[s.len() - 1]));
        lemma_decimal_value_grows(s.drop_last(), i);
        assert(s.drop_last().take(i) =~= s.take(i));
    }
}

/// The number that the characters of `v` from `from` on denote, if they are
/// digits and it does not exceed `max`.
fn digits_value(v: &Vec<char>, from: usize, max: u64) -> (r: Option<u64>)
    requires
        from <= v.len(),
    ensures
        ({
            let digits = v@.skip(from as int);
            match r {
                Some(n) => all_digits(digits) && decimal_value(digits) == n && n <= max,
                None => !all_digits(digits) || decimal_value(digits) > max,
            }
        }),
{
    let ghost digits = v@.skip(from as int);
    if from == v.len() {
        return None;
    }
    let mut n: u64 = 0;
    let mut i: usize = from;
    while i < v.len()
        invariant
            from <= i <= v.len(),
            digits == v@.skip(from as int),
            forall|k: int| 0 <= k < i - from ==> is_digit(#[trigger] digits[k]),
            n == decimal_value(digits.take(i - from)),
            n <= max,
        decreases v.len() - i,
    {
        let c: u32 = code_point(v[i]);
        assert(digits[i - from] == v@[i as int]);
        if c < 0x30 || c > 0x39 {
            return None;
        }
        let d: u64 = (c - 0x30) as u64;
        assert(digits.take(i - from + 1).drop_last() =~= digits.take(i - from));
        assert(decimal_value(digits.take(i - from + 1)) == n * 10 + d);
        if n > max / 10 || (n == max / 10 && d > max % 10) {
            assert(n * 10 + d > max);
            proof {
                if all_digits(digits) {
                    lemma_decimal_value_grows(digits, i - from + 1);
                }
            }
            return None;
        }
        n = n * 10 + d;
        i = i + 1;
    }
    assert(digits.take(i - from) =~= digits);
    Some(n)
}

/// Parse an unsigned integer of at most `max`.
pub fn parse_unsigned(s: &str, max: u64) -> (r: Option<u64>)
    ensures
        match r {
            Some(n) => unsigned_value(s@, max as int) == Some(n as int),
            None => unsigned_value(s@, max as int) is None,
        },
{
    let v = characters(s);
    let from: usize = if v.len() > 0 && v[0] == '+' {
        1
    } else {
        0
    };
    assert(without_plus(s@) =~= v@.skip(from as int));
    digits_value(&v, from, max)
}

/// Parse a 32-bit signed integer.
pub fn parse_i32(s: &str) -> (r: Option<i32>)
    ensures
        match r {
            Some(n) => signed_value(s@, i32::MIN as int, i32::MAX as int) == Some(n as int),
            None => signed_value(s@, i32::MIN as int, i32::MAX as int) is None,
        },
{
    let v = characters(s);
    if v.len() > 0 && v[0] == '-' {
        assert(s@.drop_first() =~= v@.skip(1));
        match digits_value(&v, 1, 0x8000_0000) {
            Some(n) => Some((-(n as i64)) as i32),
            None => None,
        }
    } else {
        match parse_unsigned(s, 0x7FFF_FFFF) {
            Some(n) => Some(n as i32),
            None => None,
        }
    }
}

/// The decimal digits of `n`, without leading zeros.
pub open spec fn decimal_text(n: nat) -> Seq<char>
    decreases n,
{
    let digit = (0x30 + n % 10) as char;
    if n < 10 {
        seq![digit]
    } else {
        decimal_text(n / 10).push(digit)
    }
}

fn digit_text(d: u64) -> (r: &'static str)
    requires
        d < 10,
    ensures
        r@ == seq![(0x30 + d) as char],
{
    proof {
        reveal_strlit("0");
        reveal_strlit("1");
        reveal_strlit("2");
        reveal_strlit("3");
        reveal_strlit("4");
        reveal_strlit("5");
        reveal_strlit("6");
        reveal_strlit("7");
        reveal_strlit("8");
        reveal_strlit("9");
    }
    let r = if d == 0 {
        "0"
    } else if d == 1 {
        "1"
    } else if d == 2 {
        "2"
    } else if d == 3 {
        "3"
    } else if d == 4 {
        "4"
    } else if d == 5 {
        "5"
    } else if d == 6 {
        "6"
    } else if d == 7 {
        "7"
    } else if d == 8 {
        "8"
    } else {
        "9"
    };
    assert(r@ =~= seq![(0x30 + d) as char]);
    r
}

/// `n` in decimal digits.
pub fn decimal(n: u64) -> (r: String)
    ensures
        r@ == decimal_text(n as nat),
    decreases n,
{
    if n < 10 {
        digit_text(n).to_owned()
    } else {
        let mut r = decimal(n / 10);
        r.append(digit_text(n % 10));
        assert(r@ =~= decimal_text(n as nat));
        r
    }
}

/// A number survives being written in decimal digits and read back.
pub proof fn law_decimal_survives(n: nat)
    ensures
        all_digits(decimal_text(n)),
        decimal_value(decimal_text(n)) == n,
        unsigned_value(decimal_text(n), n as int) == Some(n as int),
    decreases n,
{
    let digit = (0x30 + n % 10) as char;
    if n < 10 {
        let s = seq![digit];
        assert(s.drop_last() =~= Seq::empty());
        assert(decimal_value(s) == n) by {
            reveal_with_fuel(decimal_value, 2);
        }
    } else {
        law_decimal_survives(n / 10);
        let s = decimal_text(n);
        assert(s.drop_last() =~= decimal_text(n / 10));
        assert(s.last() == digit);
        assert forall|i: int| 0 <= i < s.len() implies is_digit(#[trigger] s[i]) by {
            if i < s.len() - 1 {
                assert(s[i] == decimal_text(n / 10)[i]);
            }
        }
    }
    assert(is_digit(decimal_text(n)[0]));
    assert(without_plus(decimal_text(n)) == decimal_text(n));
}

/// Of two texts that agree on their first `i` characters, that one comes first
/// which ends there, or which has the smaller character next.
pub proof fn law_texts_are_ordered_by_their_first_difference(a: Seq<char>, b: Seq<char>, i: int)
    requires
        0 <= i <= a.len(),
        i <= b.len(),
        forall|k: int| 0 <= k < i ==> a[k] == b[k],
    ensures
        i == a.len() < b.len() ==> lex_less(a, b) && !lex_less(b, a),
        i < a.len() && i < b.len() && (a[i] as int) < (b[i] as int) ==> lex_less(a, b) && !lex_less(
            b,
            a,
        ),
        i == a.len() == b.len() ==> !lex_less(a, b) && !lex_less(b, a),
    decreases i,
{
    if i > 0 {
        law_texts_are_ordered_by_their_first_difference(a.drop_first(), b.drop_first(), i - 1);
    }
}

/// Trimming takes away all white space at both ends, and nothing else.
pub proof fn law_trimming_takes_the_white_space_at_the_ends(
    before: Seq<char>,
    s: Seq<char>,
    after: Seq<char>,
)
    requires
        forall|i: int| 0 <= i < before.len() ==> is_space(#[trigger] before[i]),
        forall|i: int| 0 <= i < after.len() ==> is_space(#[trigger] after[i]),
        s.len() > 0 ==> !is_space(s[0]) && !is_space(s[s.len() - 1]),
    ensures
        trimmed(before + s + after) == s,
    decreases before.len() + after.len(),
{
    let t = before + s + after;
    if before.len() > 0 {
        assert(t[0] == before[0]);
        assert(t.drop_first() =~= before.drop_first() + s + after);
        law_trimming_takes_the_white_space_at_the_ends(before.drop_first(), s, after);
    } else if after.len() > 0 {
        assert(t.last() == after[after.len() - 1]);
        if s.len() == 0 {
            assert(t[0] == after[0]);
            assert(t =~= after + s + Seq::<char>::empty());
            assert(t.drop_first() =~= after.drop_first() + s + Seq::<char>::empty());
            law_trimming_takes_the_white_space_at_the_ends(after.drop_first(), s, Seq::empty());
        } else {
            assert(t[0] == s[0]);
            assert(t.drop_last() =~= before + s + after.drop_last());
            law_trimming_takes_the_white_space_at_the_ends(before, s, after.drop_last());
        }
    } else {
        assert(t =~= s);
        if s.len() > 0 {
            assert(s.last() == s[s.len() - 1]);
        }
    }
}

/// White space is what Unicode calls so: in ASCII the blank, the tabs, the line
/// ends and the page break, and beyond it the blanks and separators of Unicode.
pub proof fn law_white_space_is_that_of_unicode(c: char)
    ensures
        (c as int) < 0x80 ==> (is_space(c) <==> c == ' ' || c == '\t' || c == '\n' || c == '\u{b}' || c
            == '\u{c}' || c == '\r'),
        (c as int) >= 0x80 ==> (is_space(c) <==> c == '\u{85}' || c == '\u{a0}' || c == '\u{1680}' || (
        '\u{2000}' as int <= c as int <= '\u{200a}' as int) || c == '\u{2028}' || c == '\u{2029}' || c
            == '\u{202f}' || c == '\u{205f}' || c == '\u{3000}'),
{
    reveal(is_space);
}

/// In upper case, each of the letters `a` to `z` becomes its capital, and every
/// other character stays as it is.
pub proof fn law_upper_case_changes_small_letters_only(s: Seq<char>, i: int)
    requires
        0 <= i < s.len(),
    ensures
        uppercase(s).len() == s.len(),
        !('a' as int <= s[i] as int <= 'z' as int) ==> uppercase(s)[i] == s[i],
        'a' as int <= s[i] as int <= 'z' as int ==> uppercase(s)[i] as int - 'A' as int == s[i] as int
            - 'a' as int,
{
}

/// Digits denote numbers by position: each further digit counts once, and ten
/// times what stands before it.
pub proof fn law_digits_count_by_position(s: Seq<char>, c: char)
    requires
        '0' as int <= c as int <= '9' as int,
    ensures
        decimal_value(Seq::empty().push(c)) == c as int - '0' as int,
        decimal_value(s.push(c)) == 10 * decimal_value(s) + (c as int - '0' as int),
{
    assert(s.push(c).drop_last() =~= s);
    assert(Seq::<char>::empty().push(c).drop_last() =~= Seq::empty());
    reveal_with_fuel(decimal_value, 2);
}

/// A text of digits is read as the number that it denotes, with or without a
/// plus sign, or a minus sign where signs are read, unless it is out of range.
pub proof fn law_numbers_are_read_as_written(s: Seq<char>, min: int, max: int)
    requires
        s.len() > 0,
        forall|i: int| 0 <= i < s.len() ==> '0' as int <= (#[trigger] s[i]) as int <= '9' as int,
    ensures
        unsigned_value(s, max) == (if decimal_value(s) <= max {
            Some(decimal_value(s))
        } else {
            None
        }),
        unsigned_value(seq!['+'] + s, max) == unsigned_value(s, max),
        unsigned_value(seq!['-'] + s, max) is None,
        signed_value(s, min, max) == unsigned_value(s, max),
        signed_value(seq!['+'] + s, min, max) == unsigned_value(s, max),
        signed_value(seq!['-'] + s, min, max) == (if -decimal_value(s) >= min {
            Some(-decimal_value(s))
        } else {
            None
        }),
{
    assert(is_digit(s[0]));
    assert(all_digits(s));
    assert((seq!['+'] + s).drop_first() =~= s);
    assert((seq!['-'] + s).drop_first() =~= s);
    assert(!is_digit((seq!['-'] + s)[0]));
}

/// A text with a character that is neither a digit nor a leading sign is no
/// number, and neither is one without digits.
pub proof fn law_other_texts_are_no_numbers(s: Seq<char>, min: int, max: int, i: int)
    ensures
        0 <= i < s.len() && !('0' as int <= s[i] as int <= '9' as int) && !(i == 0 && (s[i] == '+'
            || s[i] == '-')) ==> unsigned_value(s, max) is None && signed_value(s, min, max) is None,
        s.len() == 0 || s == seq!['+'] || s == seq!['-'] ==> unsigned_value(s, max) is None
            && signed_value(s, min, max) is None,
{
    if 0 <= i < s.len() && !('0' as int <= s[i] as int <= '9' as int) {
        assert(!is_digit(s[i]));
        if i > 0 {
            assert(s.drop_first()[i - 1] == s[i]);
        }
    }
    if s == seq!['-'] {
        assert(!is_digit(s[0]));
    }
}

} // verus!
