//! Character-level helpers used by the name and label handling of the library.

use vstd::prelude::*;

verus! {

broadcast use vstd::string::group_string_axioms;

/// The characters of a string slice, in order.
pub fn chars_of(s: &str) -> (v: Vec<char>)
    ensures
        v@ == s@,
{
    let mut v: Vec<char> = Vec::new();
    for c in it: s.chars()
        invariant
            it.seq() == s@,
            v@ == it.seq().take(it.index() as int),
    {
        v.push(c);
    }
    v
}

/// Appends a character to a string.
#[verifier::external_body]
pub fn push_char(s: &mut String, c: char)
    ensures
        final(s)@ == old(s)@.push(c),
{
    s.push(c);
}

/// A string holding exactly the given characters.
pub fn string_of(v: &Vec<char>) -> (s: String)
    ensures
        s@ == v@,
{
    let mut s = String::new();
    for i in 0..v.len()
        invariant
            s@ == v@.take(i as int),
    {
        push_char(&mut s, v[i]);
        assert(v@.take(i + 1) == v@.take(i as int).push(v@[i as int]));
    }
    assert(v@.take(v.len() as int) == v@);
    s
}

} // verus!

verus! {

/// True for the characters '0' to '9'.
pub open spec fn is_digit(c: char) -> bool {
    '0' <= c && c <= '9'
}

/// The numeric value of a decimal digit.
pub open spec fn digit_value(c: char) -> nat {
    (c as int - '0' as int) as nat
}

/// The value of a string of decimal digits, most significant first.
pub open spec fn decimal_value(s: Seq<char>) -> nat
    decreases s.len(),
{
    if s.len() == 0 {
        0
    } else {
        decimal_value(s.drop_last()) * 10 + digit_value(s.last())
    }
}

/// The text that remains of an unsigned number after an optional leading '+'.
pub open spec fn unsigned_digits(s: Seq<char>) -> Seq<char> {
    if s.len() > 0 && s[0] == '+' {
        s.drop_first()
    } else {
        s
    }
}

/// What the standard library's parse of an unsigned integer type whose largest value is `max`
/// gives: an optional '+', then at least one decimal digit, and a value no larger than `max`.
pub open spec fn parse_unsigned_spec(s: Seq<char>, max: nat) -> Option<nat> {
    let d = unsigned_digits(s);
    if d.len() > 0 && (forall|i: int| 0 <= i < d.len() ==> is_digit(#[trigger] d[i]))
        && decimal_value(d) <= max {
        Some(decimal_value(d))
    } else {
        None
    }
}

/// Parse an unsigned decimal number no larger than `max`, in the way `str::parse` does for the
/// unsigned integer types.
pub fn parse_unsigned(s: &str, max: u64) -> (res: Option<u64>)
    ensures
        match parse_unsigned_spec(s@, max as nat) {
            Some(v) => res == Some(v as u64),
            None => res is None,
        },
{
    let chars = chars_of(s);
    let start: usize = if chars.len() > 0 && chars[0] == '+' { 1 } else { 0 };
    let ghost d = unsigned_digits(s@);
    assert(d == chars@.subrange(start as int, chars@.len() as int));
    if start >= chars.len() {
        return None;
    }
    let cap: u128 = max as u128 + 1;
    let mut acc: u128 = 0;
    let mut i: usize = start;
    while i < chars.len()
        invariant
            start <= i <= chars.len(),
            chars@ == s@,
            d == chars@.subrange(start as int, chars@.len() as int),
            d == unsigned_digits(s@),
            cap == max + 1,
            forall|j: int| start <= j < i ==> is_digit(#[trigger] chars@[j]),
            acc == if decimal_value(chars@.subrange(start as int, i as int)) < cap {
                decimal_value(chars@.subrange(start as int, i as int)) as int
            } else {
                cap as int
            },
        decreases chars.len() - i,
    {
        let c = chars[i];
        if c < '0' || c > '9' {
            assert(d[i - start] == c);
            assert(!is_digit(d[i - start]));
            return None;
        }
        let digit: u128 = (c as u32 - '0' as u32) as u128;
        let ghost prefix = chars@.subrange(start as int, i as int);
        assert(chars@.subrange(start as int, i + 1).drop_last() == prefix);
        let next: u128 = acc * 10 + digit;
        acc = if next >= cap { cap } else { next };
        i = i + 1;
    }
    assert(chars@.subrange(start as int, i as int) == d);
    if acc >= cap {
        None
    } else {
        Some(acc as u64)
    }
}

} // verus!

verus! {

/// The decimal digit character for a value below 10.
pub open spec fn digit_char(d: nat) -> char {
    ((d + '0' as nat) as u32) as char
}

/// The decimal representation of a number, without leading zeros ("0" for zero).
pub open spec fn decimal_text(n: nat) -> Seq<char>
    decreases n,
{
    if n < 10 {
        seq![digit_char(n)]
    } else {
        decimal_text(n / 10).push(digit_char(n % 10))
    }
}

/// The decimal representation of a number.
pub fn number_text(n: u64) -> (res: String)
    ensures
        res@ == decimal_text(n as nat),
    decreases n,
{
    if n < 10 {
        let mut s = String::new();
        push_char(&mut s, ((n as u32) + ('0' as u32)) as u8 as char);
        s
    } else {
        let mut s = number_text(n / 10);
        push_char(&mut s, (((n % 10) as u32) + ('0' as u32)) as u8 as char);
        s
    }
}

/// Appends a string slice to a string.
pub fn append_str(s: &mut String, t: &str)
    ensures
        final(s)@ == old(s)@ + t@,
{
    s.append(t);
}

} // verus!

verus! {

/// True iff the two strings hold the same characters.
pub fn str_equals(a: &str, b: &str) -> (res: bool)
    ensures
        res == (a@ == b@),
{
    let x = chars_of(a);
    let y = chars_of(b);
    if x.len() != y.len() {
        return false;
    }
    for i in 0..x.len()
        invariant
            x@.len() == y@.len(),
            x@ == a@,
            y@ == b@,
            forall|j: int| 0 <= j < i ==> x@[j] == y@[j],
    {
        if x[i] != y[i] {
            assert(a@[i as int] != b@[i as int]);
            return false;
        }
    }
    assert(x@ =~= y@);
    true
}

} // verus!

verus! {

/// The characters Unicode calls white space (the `White_Space` property).
pub open spec fn is_white(c: char) -> bool {
    ||| '\u{9}' <= c <= '\u{D}'
    ||| c == ' '
    ||| c == '\u{85}'
    ||| c == '\u{A0}'
    ||| c == '\u{1680}'
    ||| '\u{2000}' <= c <= '\u{200A}'
    ||| c == '\u{2028}'
    ||| c == '\u{2029}'
    ||| c == '\u{202F}'
    ||| c == '\u{205F}'
    ||| c == '\u{3000}'
}

/// True iff the character is white space.
pub fn is_whitespace(c: char) -> (res: bool)
    ensures
        res == is_white(c),
{
    ('\u{9}' <= c && c <= '\u{D}') || c == ' ' || c == '\u{85}' || c == '\u{A0}' || c == '\u{1680}' || ('\u{2000}'
        <= c && c <= '\u{200A}') || c == '\u{2028}' || c == '\u{2029}' || c == '\u{202F}' || c == '\u{205F}' || c
        == '\u{3000}'
}

/// The text without leading white space.
pub open spec fn trim_start(s: Seq<char>) -> Seq<char>
    decreases s.len(),
{
    if s.len() > 0 && is_white(s[0]) {
        trim_start(s.skip(1))
    } else {
        s
    }
}

/// The text without trailing white space.
pub open spec fn trim_end(s: Seq<char>) -> Seq<char>
    decreases s.len(),
{
    if s.len() > 0 && is_white(s.last()) {
        trim_end(s.drop_last())
    } else {
        s
    }
}

/// The text without leading or trailing white space.
pub open spec fn trim(s: Seq<char>) -> Seq<char> {
    trim_end(trim_start(s))
}

/// The characters from `start` to `end`, without leading or trailing white space.
pub fn trimmed_range(v: &Vec<char>, start: usize, end: usize) -> (res: Vec<char>)
    requires
        start <= end <= v@.len(),
    ensures
        res@ == trim(v@.subrange(start as int, end as int)),
{
    let ghost s = v@.subrange(start as int, end as int);
    let mut a = start;
    while a < end && is_whitespace(v[a])
        invariant
            start <= a <= end <= v@.len(),
            s == v@.subrange(start as int, end as int),
            trim_start(s) == trim_start(v@.subrange(a as int, end as int)),
        decreases end - a,
    {
        assert(v@.subrange(a as int, end as int).skip(1) =~= v@.subrange(a + 1, end as int));
        a = a + 1;
    }
    let mut b = end;
    while b > a && is_whitespace(v[b - 1])
        invariant
            start <= a <= b <= end <= v@.len(),
            trim(s) == trim_end(v@.subrange(a as int, b as int)),
        decreases b - a,
    {
        assert(v@.subrange(a as int, b as int).drop_last() =~= v@.subrange(a as int, b - 1));
        b = b - 1;
    }
    let mut res: Vec<char> = Vec::new();
    for i in a..b
        invariant
            a <= b <= v@.len(),
            res@ == v@.subrange(a as int, i as int),
    {
        res.push(v[i]);
        assert(v@.subrange(a as int, i + 1) =~= v@.subrange(a as int, i as int).push(v@[i as int]));
    }
    res
}

/// The parts, with the separator between each two.
pub open spec fn join(parts: Seq<Seq<char>>, sep: Seq<char>) -> Seq<char>
    decreases parts.len(),
{
    if parts.len() == 0 {
        Seq::empty()
    } else if parts.len() == 1 {
        parts[0]
    } else {
        join(parts.drop_last(), sep) + sep + parts.last()
    }
}

/// The texts of a list of strings.
pub open spec fn texts_of(v: Seq<String>) -> Seq<Seq<char>> {
    v.map_values(|s: String| s@)
}

/// The strings, with the separator between each two.
pub fn join_strings(parts: &Vec<String>, sep: &str) -> (res: String)
    ensures
        res@ == join(texts_of(parts@), sep@),
{
    let mut res = String::new();
    for i in 0..parts.len()
        invariant
            res@ == join(texts_of(parts@).take(i as int), sep@),
    {
        assert(texts_of(parts@).take(i + 1).drop_last() =~= texts_of(parts@).take(i as int));
        if i > 0 {
            append_str(&mut res, sep);
        }
        append_str(&mut res, parts[i].as_str());
    }
    assert(texts_of(parts@).take(parts@.len() as int) =~= texts_of(parts@));
    res
}

} // verus!

verus! {

/// `i` is where `c` first occurs in `s`.
pub open spec fn first_at(s: Seq<char>, c: char, i: int) -> bool {
    0 <= i < s.len() && s[i] == c && forall|j: int| 0 <= j < i ==> s[j] != c
}

/// The pieces of a text between occurrences of a separator.
pub open spec fn split_on(s: Seq<char>, c: char) -> Seq<Seq<char>>
    decreases s.len(),
{
    if exists|i: int| first_at(s, c, i) {
        let i = choose|i: int| first_at(s, c, i);
        seq![s.take(i)] + split_on(s.skip(i + 1), c)
    } else {
        seq![s]
    }
}

/// The text before the first occurrence of a separator and the text after it, if it occurs.
pub open spec fn split_once_spec(s: Seq<char>, c: char) -> Option<(Seq<char>, Seq<char>)> {
    if exists|i: int| first_at(s, c, i) {
        let i = choose|i: int| first_at(s, c, i);
        Some((s.take(i), s.skip(i + 1)))
    } else {
        None
    }
}

/// Where a character first occurs, at or after `start`, or the length if it does not.
fn find_from(chars: &Vec<char>, c: char, start: usize) -> (res: usize)
    requires
        start <= chars@.len(),
    ensures
        start <= res <= chars@.len(),
        forall|j: int| start <= j < res ==> chars@[j] != c,
        res < chars@.len() ==> chars@[res as int] == c,
{
    let mut end = start;
    while end < chars.len() && chars[end] != c
        invariant
            start <= end <= chars@.len(),
            forall|j: int| start <= j < end ==> chars@[j] != c,
        decreases chars@.len() - end,
    {
        end = end + 1;
    }
    end
}

/// The characters from `start` to `end`, as a string.
pub fn text_between(chars: &Vec<char>, start: usize, end: usize) -> (res: String)
    requires
        start <= end <= chars@.len(),
    ensures
        res@ == chars@.subrange(start as int, end as int),
{
    let mut piece: Vec<char> = Vec::new();
    for k in start..end
        invariant
            start <= end <= chars@.len(),
            piece@ == chars@.subrange(start as int, k as int),
    {
        piece.push(chars[k]);
        assert(chars@.subrange(start as int, k + 1) =~= chars@.subrange(start as int, k as int).push(chars@[k as int]));
    }
    string_of(&piece)
}

/// Split a text at the first occurrence of a separator.
pub fn split_once_text(s: &str, c: char) -> (res: Option<(String, String)>)
    ensures
        match split_once_spec(s@, c) {
            Some((a, b)) => res matches Some((x, y)) && x@ == a && y@ == b,
            None => res is None,
        },
{
    let chars = chars_of(s);
    let i = find_from(&chars, c, 0);
    if i == chars.len() {
        assert(!exists|k: int| first_at(s@, c, k));
        None
    } else {
        assert(first_at(s@, c, i as int));
        assert forall|k: int| first_at(s@, c, k) implies k == i by {
            if k < i {
                assert(chars@[k] != c);
            } else if k > i {
                assert(s@[i as int] == c);
            }
        }
        let a = text_between(&chars, 0, i);
        let b = text_between(&chars, i + 1, chars.len());
        assert(a@ =~= s@.take(i as int));
        assert(b@ =~= s@.skip(i + 1));
        Some((a, b))
    }
}

/// Split a text at every occurrence of a separator.
pub fn split_text(s: &str, c: char) -> (res: Vec<String>)
    ensures
        texts_of(res@) == split_on(s@, c),
{
    let chars = chars_of(s);
    let ghost t = s@;
    let mut res: Vec<String> = Vec::new();
    let mut start: usize = 0;
    let mut finished = false;
    assert(t.skip(0) =~= t);
    assert(texts_of(res@) =~= Seq::<Seq<char>>::empty());
    while !finished
        invariant
            chars@ == t,
            start <= chars@.len(),
            !finished ==> split_on(t, c) == texts_of(res@) + split_on(t.skip(start as int), c),
            finished ==> split_on(t, c) == texts_of(res@),
        decreases chars@.len() - start + (if finished { 0int } else { 1int }),
    {
        let end = find_from(&chars, c, start);
        let ghost rest = t.skip(start as int);
        let piece = text_between(&chars, start, end);
        let ghost before = texts_of(res@);
        res.push(piece);
        assert(texts_of(res@) =~= before.push(piece@));
        if end == chars.len() {
            assert(!exists|i: int| first_at(rest, c, i)) by {
                if exists|i: int| first_at(rest, c, i) {
                    let i = choose|i: int| first_at(rest, c, i);
                    assert(chars@[start + i] == c);
                }
            }
            assert(rest =~= piece@);
            assert(split_on(rest, c) == seq![rest]);
            assert(split_on(t, c) =~= texts_of(res@));
            finished = true;
        } else {
            let ghost i = end - start;
            assert(first_at(rest, c, i));
            assert forall|k: int| first_at(rest, c, k) implies k == i by {
                if k < i {
                    assert(chars@[start + k] != c);
                } else if k > i {
                    assert(rest[i] == c);
                }
            }
            assert(rest.take(i) =~= piece@);
            assert(rest.skip(i + 1) =~= t.skip(end + 1));
            assert(split_on(rest, c) == seq![rest.take(i)] + split_on(rest.skip(i + 1), c));
            assert(split_on(t, c) =~= texts_of(res@) + split_on(t.skip(end + 1), c));
            start = end + 1;
        }
    }
    res
}

} // verus!

verus! {

/// True iff `s` begins with `prefix`.
pub open spec fn starts_with(s: Seq<char>, prefix: Seq<char>) -> bool {
    s.len() >= prefix.len() && s.take(prefix.len() as int) == prefix
}

/// What the standard library's parse of a signed integer type with the range `min..=max` gives:
/// an optional '+' or '-', then at least one decimal digit, and a value in the range.
pub open spec fn parse_signed_spec(s: Seq<char>, min: int, max: nat) -> Option<int> {
    if s.len() > 0 && s[0] == '-' {
        let d = s.drop_first();
        if d.len() > 0 && (forall|i: int| 0 <= i < d.len() ==> is_digit(#[trigger] d[i])) && -decimal_value(d)
            >= min {
            Some(-decimal_value(d))
        } else {
            None
        }
    } else {
        match parse_unsigned_spec(s, max) {
            Some(v) => Some(v as int),
            None => None,
        }
    }
}

/// Parse a signed decimal number in the way `str::parse::<isize>` does.
pub fn parse_isize(s: &str) -> (res: Option<isize>)
    ensures
        match parse_signed_spec(s@, isize::MIN as int, isize::MAX as nat) {
            Some(v) => res is Some && res->0 == v,
            None => res is None,
        },
{
    let chars = chars_of(s);
    if chars.len() > 0 && chars[0] == '-' {
        let rest = text_between(&chars, 1, chars.len());
        assert(rest@ =~= s@.drop_first());
        if chars.len() > 1 && chars[1] == '+' {
            assert(!is_digit(rest@[0]));
            return None;
        }
        let limit: u64 = (isize::MAX as u64) + 1;
        match parse_unsigned(rest.as_str(), limit) {
            Some(v) => {
                assert(unsigned_digits(rest@) == rest@);
                if v == limit {
                    Some(isize::MIN)
                } else {
                    Some(-(v as isize))
                }
            },
            None => {
                assert(unsigned_digits(rest@) == rest@);
                None
            },
        }
    } else {
        match parse_unsigned(s, isize::MAX as u64) {
            Some(v) => Some(v as isize),
            None => None,
        }
    }
}

/// The decimal representation of a whole number, with a leading '-' if it is negative.
pub open spec fn signed_text(n: int) -> Seq<char> {
    if n < 0 {
        seq!['-'] + decimal_text((-n) as nat)
    } else {
        decimal_text(n as nat)
    }
}

/// The decimal representation of a signed number.
pub fn isize_text(n: isize) -> (res: String)
    ensures
        res@ == signed_text(n as int),
{
    if n < 0 {
        let magnitude: u64 = (-(n as i128)) as u64;
        let mut res = String::new();
        push_char(&mut res, '-');
        let digits = number_text(magnitude);
        append_str(&mut res, digits.as_str());
        assert(res@ =~= seq!['-'] + decimal_text((-n) as nat));
        res
    } else {
        number_text(n as u64)
    }
}

} // verus!

verus! {

/// A digit character stands for its value.
pub proof fn lemma_digit_char(d: nat)
    requires
        d < 10,
    ensures
        is_digit(digit_char(d)),
        digit_value(digit_char(d)) == d,
{
}

/// The decimal text of a number is a non-empty string of digits whose value is the number.
pub proof fn lemma_decimal_text(n: nat)
    ensures
        decimal_text(n).len() > 0,
        forall|i: int| 0 <= i < decimal_text(n).len() ==> is_digit(#[trigger] decimal_text(n)[i]),
        decimal_value(decimal_text(n)) == n,
    decreases n,
{
    if n < 10 {
        lemma_digit_char(n);
        assert(decimal_text(n).drop_last() =~= Seq::<char>::empty());
        assert(decimal_value(decimal_text(n)) == decimal_value(Seq::<char>::empty()) * 10 + digit_value(
            digit_char(n),
        ));
    } else {
        lemma_decimal_text(n / 10);
        lemma_digit_char(n % 10);
        let t = decimal_text(n);
        assert(t.drop_last() =~= decimal_text(n / 10));
        assert(t.last() == digit_char(n % 10));
        assert(decimal_value(t) == decimal_value(t.drop_last()) * 10 + digit_value(t.last()));
        assert((n / 10) * 10 + n % 10 == n) by (nonlinear_arith);
    }
}

/// Reading back the decimal text of a number no larger than `max` gives the number.
pub proof fn lemma_unsigned_text_round_trip(n: nat, max: nat)
    requires
        n <= max,
    ensures
        parse_unsigned_spec(decimal_text(n), max) == Some(n),
{
    lemma_decimal_text(n);
    assert(is_digit(decimal_text(n)[0]));
    assert(unsigned_digits(decimal_text(n)) == decimal_text(n));
}

/// Reading back the text of a whole number in the range `min..=max` gives the number.
pub proof fn lemma_signed_text_round_trip(n: int, min: int, max: nat)
    requires
        min <= n <= max,
    ensures
        parse_signed_spec(signed_text(n), min, max) == Some(n),
{
    if n < 0 {
        lemma_decimal_text((-n) as nat);
        let s = signed_text(n);
        assert(s.drop_first() =~= decimal_text((-n) as nat));
    } else {
        lemma_unsigned_text_round_trip(n as nat, max);
        lemma_decimal_text(n as nat);
        assert(is_digit(decimal_text(n as nat)[0]));
    }
}

} // verus!

verus! {

/// No part holds the character `c`.
pub open spec fn free_of(parts: Seq<Seq<char>>, c: char) -> bool {
    forall|k: int, j: int| 0 <= k < parts.len() && 0 <= j < parts[k].len() ==> #[trigger] parts[k][j] != c
}

/// Joining at least two parts puts the first part, then the separator, before the rest joined.
proof fn lemma_join_front(parts: Seq<Seq<char>>, sep: Seq<char>)
    requires
        parts.len() >= 2,
    ensures
        join(parts, sep) == parts[0] + sep + join(parts.drop_first(), sep),
    decreases parts.len(),
{
    if parts.len() == 2 {
        assert(join(parts.drop_last(), sep) == parts[0]);
        assert(join(parts.drop_first(), sep) == parts[1]);
    } else {
        lemma_join_front(parts.drop_last(), sep);
        assert(parts.drop_last().drop_first() =~= parts.drop_first().drop_last());
        assert(join(parts, sep) =~= parts[0] + sep + join(parts.drop_first(), sep));
    }
}

/// Splitting at `c` the parts joined by `c`, where no part holds `c`, gives the parts back.
pub proof fn lemma_split_join(parts: Seq<Seq<char>>, c: char)
    requires
        parts.len() > 0,
        free_of(parts, c),
    ensures
        split_on(join(parts, seq![c]), c) == parts,
    decreases parts.len(),
{
    let s = join(parts, seq![c]);
    if parts.len() == 1 {
        assert(s == parts[0]);
        assert forall|i: int| !first_at(s, c, i) by {
            if 0 <= i < s.len() {
                assert(parts[0][i] != c);
            }
        }
        assert(split_on(s, c) == seq![s]);
        assert(seq![s] =~= parts);
    } else {
        lemma_join_front(parts, seq![c]);
        let p0 = parts[0];
        let i = p0.len() as int;
        let rest = join(parts.drop_first(), seq![c]);
        assert(s =~= p0 + seq![c] + rest);
        assert forall|j: int| 0 <= j < i implies s[j] != c by {
            assert(s[j] == p0[j]);
            assert(parts[0][j] != c);
        }
        assert(first_at(s, c, i));
        assert forall|k: int| first_at(s, c, k) implies k == i by {
            if k < i {
                assert(s[k] == parts[0][k]);
            }
        }
        assert(s.take(i) =~= p0);
        assert(s.skip(i + 1) =~= rest);
        assert(free_of(parts.drop_first(), c)) by {
            assert forall|k: int, j: int| 0 <= k < parts.drop_first().len() && 0 <= j < parts.drop_first()[k].len()
                implies #[trigger] parts.drop_first()[k][j] != c by {
                assert(parts.drop_first()[k] == parts[k + 1]);
                assert(parts[k + 1][j] != c);
            }
        }
        lemma_split_join(parts.drop_first(), c);
        assert(split_on(s, c) == seq![p0] + split_on(rest, c));
        assert(seq![p0] + parts.drop_first() =~= parts);
    }
}

} // verus!

verus! {

/// The text of a whole number is made of digits and a '-'.
pub proof fn lemma_signed_text_chars(n: int)
    ensures
        forall|j: int|
            0 <= j < signed_text(n).len() ==> is_digit(#[trigger] signed_text(n)[j]) || signed_text(n)[j] == '-',
{
    if n < 0 {
        lemma_decimal_text((-n) as nat);
        assert forall|j: int| 0 <= j < signed_text(n).len() implies is_digit(#[trigger] signed_text(n)[j])
            || signed_text(n)[j] == '-' by {
            if j > 0 {
                assert(signed_text(n)[j] == decimal_text((-n) as nat)[j - 1]);
            }
        }
    } else {
        lemma_decimal_text(n as nat);
    }
}

} // verus!

verus! {

/// True for the characters that `split_ascii_whitespace` splits at.
pub open spec fn is_ascii_white(c: char) -> bool {
    c == ' ' || c == '\t' || c == '\n' || c == '\u{C}' || c == '\r'
}

/// The words of `s` from position `i`, given the word `cur` being read and the words `acc` read before.
pub open spec fn words_from(s: Seq<char>, i: int, cur: Seq<char>, acc: Seq<Seq<char>>) -> Seq<Seq<char>>
    decreases s.len() - i,
{
    if i < 0 || i >= s.len() {
        if cur.len() > 0 {
            acc.push(cur)
        } else {
            acc
        }
    } else if is_ascii_white(s[i]) {
        words_from(s, i + 1, Seq::empty(), if cur.len() > 0 {
            acc.push(cur)
        } else {
            acc
        })
    } else {
        words_from(s, i + 1, cur.push(s[i]), acc)
    }
}

/// The non-empty pieces of a text between ASCII white space, as `str::split_ascii_whitespace` gives them.
pub open spec fn words(s: Seq<char>) -> Seq<Seq<char>> {
    words_from(s, 0, Seq::empty(), Seq::empty())
}

/// Split a text into its words, at ASCII white space.
pub fn split_words(s: &str) -> (res: Vec<String>)
    ensures
        texts_of(res@) == words(s@),
{
    let chars = chars_of(s);
    let mut res: Vec<String> = Vec::new();
    let mut cur: Vec<char> = Vec::new();
    assert(texts_of(res@) =~= Seq::<Seq<char>>::empty());
    assert(cur@ =~= Seq::<char>::empty());
    for i in 0..chars.len()
        invariant
            chars@ == s@,
            words(s@) == words_from(s@, i as int, cur@, texts_of(res@)),
    {
        let c = chars[i];
        if c == ' ' || c == '\t' || c == '\n' || c == '\u{C}' || c == '\r' {
            if cur.len() > 0 {
                let w = string_of(&cur);
                let ghost before = res@;
                res.push(w);
                assert(texts_of(res@) =~= texts_of(before).push(cur@));
            }
            cur = Vec::new();
        } else {
            cur.push(c);
        }
    }
    if cur.len() > 0 {
        let w = string_of(&cur);
        let ghost before = res@;
        res.push(w);
        assert(texts_of(res@) =~= texts_of(before).push(cur@));
    }
    res
}

/// The text with every leading copy of `p` removed, as `str::trim_start_matches` does.
pub open spec fn strip_all(s: Seq<char>, p: Seq<char>) -> Seq<char>
    decreases s.len(),
{
    if p.len() > 0 && s.len() >= p.len() && s.take(p.len() as int) == p {
        strip_all(s.skip(p.len() as int), p)
    } else {
        s
    }
}

/// The number of bytes of a character in UTF-8.
pub open spec fn utf8_len(c: char) -> nat {
    if (c as u32) < 0x80 {
        1
    } else if (c as u32) < 0x800 {
        2
    } else if (c as u32) < 0x10000 {
        3
    } else {
        4
    }
}

/// The number of bytes of a text in UTF-8, as `str::len` gives it.
pub open spec fn byte_len(s: Seq<char>) -> nat
    decreases s.len(),
{
    if s.len() == 0 {
        0
    } else {
        byte_len(s.drop_last()) + utf8_len(s.last())
    }
}

/// Whether a character has the Unicode Lowercase property, as `char::is_lowercase` gives it.
pub uninterp spec fn lowercase_char(c: char) -> bool;

/// Whether a character is lowercase.
///
/// Calls `char::is_lowercase`. Its documentation says it is true iff the character has the
/// Unicode `Lowercase` property; the contract names that property, and states what holds of the
/// ASCII characters, of which only 'a' to 'z' have it.
#[verifier::external_body]
pub(crate) fn is_lowercase(c: char) -> (res: bool)
    ensures
        res == lowercase_char(c),
        (c as u32) < 128 ==> (res <==> ('a' <= c && c <= 'z')),
{
    c.is_lowercase()
}

/// The text in upper case, as `str::to_uppercase` gives it.
pub uninterp spec fn uppercase_text(s: Seq<char>) -> Seq<char>;

/// The text in upper case.
///
/// Calls `str::to_uppercase`, which maps each character by the Unicode uppercase mapping (one
/// character may become several). The contract names the result as a function of the text.
#[verifier::external_body]
pub(crate) fn to_uppercase(s: &str) -> (res: String)
    ensures
        res@ == uppercase_text(s@),
{
    s.to_uppercase()
}

/// The text ends with the given suffix.
pub open spec fn ends_with(s: Seq<char>, suffix: Seq<char>) -> bool {
    s.len() >= suffix.len() && s.skip(s.len() - suffix.len()) == suffix
}

/// True iff `s` starts with `prefix`.
pub fn text_starts_with(s: &str, prefix: &str) -> (res: bool)
    ensures
        res == starts_with(s@, prefix@),
{
    let a = chars_of(s);
    let b = chars_of(prefix);
    if a.len() < b.len() {
        return false;
    }
    for i in 0..b.len()
        invariant
            a@ == s@,
            b@ == prefix@,
            b@.len() <= a@.len(),
            forall|k: int| 0 <= k < i ==> a@[k] == b@[k],
    {
        if a[i] != b[i] {
            assert(s@.take(prefix@.len() as int)[i as int] != prefix@[i as int]);
            return false;
        }
    }
    assert(s@.take(prefix@.len() as int) =~= prefix@);
    true
}

/// True iff `s` ends with `suffix`.
pub fn text_ends_with(s: &str, suffix: &str) -> (res: bool)
    ensures
        res == ends_with(s@, suffix@),
{
    let a = chars_of(s);
    let b = chars_of(suffix);
    if a.len() < b.len() {
        return false;
    }
    let alen = a.len();
    let off = alen - b.len();
    for i in 0..b.len()
        invariant
            alen == a@.len(),
            a@ == s@,
            b@ == suffix@,
            off + b@.len() == a@.len(),
            forall|k: int| 0 <= k < i ==> a@[off + k] == b@[k],
    {
        assert(i < b@.len());
        let j: usize = off + i;
        if a[j] != b[i] {
            assert(s@.skip(off as int)[i as int] != suffix@[i as int]);
            return false;
        }
    }
    assert(s@.skip(off as int) =~= suffix@);
    true
}

} // verus!
