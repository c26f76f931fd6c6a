//! Operations on text, stated over sequences of characters.

use vstd::prelude::*;

verus! {

/// The characters with the Unicode property White_Space.
pub open spec fn is_space(c: char) -> bool {
    let u = c as u32;
    ||| 0x9 <= u <= 0xD
    ||| u == 0x20
    ||| u == 0x85
    ||| u == 0xA0
    ||| u == 0x1680
    ||| 0x2000 <= u <= 0x200A
    ||| u == 0x2028
    ||| u == 0x2029
    ||| u == 0x202F
    ||| u == 0x205F
    ||| u == 0x3000
}

/// [`char::is_whitespace`] tells the characters with the property White_Space
/// from all others; the standard library defines it by that property.
pub assume_specification[ char::is_whitespace ](c: char) -> (r: bool)
    ensures
        r == is_space(c),
;

/// [`String::push`] appends one character.
pub assume_specification[ String::push ](s: &mut String, c: char)
    ensures
        final(s)@ == old(s)@.push(c),
;

/// `s` without its longest prefix of characters that satisfy `p`.
pub open spec fn skip_while(s: Seq<char>, p: spec_fn(char) -> bool) -> Seq<char>
    decreases s.len(),
{
    if s.len() > 0 && p(s[0]) {
        skip_while(s.drop_first(), p)
    } else {
        s
    }
}

/// `s` without its longest suffix of characters that satisfy `p`.
pub open spec fn drop_end_while(s: Seq<char>, p: spec_fn(char) -> bool) -> Seq<char>
    decreases s.len(),
{
    if s.len() > 0 && p(s.last()) {
        drop_end_while(s.drop_last(), p)
    } else {
        s
    }
}

/// White space as a predicate to strip by.
pub open spec fn space() -> spec_fn(char) -> bool {
    |c: char| is_space(c)
}

/// One character as a predicate to strip by.
pub open spec fn only(x: char) -> spec_fn(char) -> bool {
    |c: char| c == x
}

/// `s` without leading and trailing white space.
pub open spec fn trimmed(s: Seq<char>) -> Seq<char> {
    drop_end_while(skip_while(s, space()), space())
}

/// The text `p` stands in `s` at position `i`.
pub open spec fn occurs_at(s: Seq<char>, p: Seq<char>, i: int) -> bool {
    0 <= i && i + p.len() <= s.len() && s.subrange(i, i + p.len()) == p
}

/// The first position at or after `i` where `p` stands in `s`.
pub open spec fn find_from(s: Seq<char>, p: Seq<char>, i: int) -> Option<int>
    decreases s.len() - i + 1,
{
    if i + p.len() > s.len() {
        None
    } else if occurs_at(s, p, i) {
        Some(i)
    } else {
        find_from(s, p, i + 1)
    }
}

/// The first position where `p` stands in `s`.
pub open spec fn first_at(s: Seq<char>, p: Seq<char>) -> Option<int> {
    find_from(s, p, 0)
}

/// `p` stands somewhere in `s`.
pub open spec fn has(s: Seq<char>, p: Seq<char>) -> bool {
    exists|i: int| occurs_at(s, p, i)
}

/// `s` with every `from` replaced by the text `to`.
pub open spec fn replaced(s: Seq<char>, from: char, to: Seq<char>) -> Seq<char>
    decreases s.len(),
{
    if s.len() == 0 {
        s
    } else {
        replaced(s.drop_last(), from, to) + if s.last() == from {
            to
        } else {
            seq![s.last()]
        }
    }
}

/// A search from `i` finds the least position from `i` on, and nothing only
/// where there is none.
pub proof fn lemma_find_from(s: Seq<char>, p: Seq<char>, i: int)
    requires
        0 <= i,
    ensures
        match find_from(s, p, i) {
            Some(k) => {
                &&& i <= k
                &&& occurs_at(s, p, k)
                &&& forall|j: int| i <= j < k ==> !occurs_at(s, p, j)
            },
            None => forall|j: int| i <= j ==> !occurs_at(s, p, j),
        },
    decreases s.len() - i + 1,
{
    if i + p.len() <= s.len() && !occurs_at(s, p, i) {
        lemma_find_from(s, p, i + 1);
    }
}

/// The search result is determined by being the least position.
pub proof fn lemma_first_at_is(s: Seq<char>, p: Seq<char>, k: int)
    requires
        occurs_at(s, p, k),
        forall|j: int| 0 <= j < k ==> !occurs_at(s, p, j),
    ensures
        first_at(s, p) == Some(k),
{
    lemma_find_from(s, p, 0);
}

/// A text is found exactly where it occurs.
pub proof fn lemma_has(s: Seq<char>, p: Seq<char>)
    ensures
        has(s, p) <==> first_at(s, p) is Some,
{
    lemma_find_from(s, p, 0);
    if has(s, p) {
        let i = choose|i: int| occurs_at(s, p, i);
        assert(occurs_at(s, p, i));
    }
}

/// The characters of `s`.
pub fn chars_of(s: &str) -> (v: Vec<char>)
    ensures
        v@ == s@,
{
    let mut v: Vec<char> = Vec::new();
    for c in it: s.chars()
        invariant
            v@ == it.seq().take(it.index()),
            it.seq() == s@,
    {
        v.push(c);
    }
    v
}

/// The text of the characters from `from` up to `to`.
pub fn string_of(v: &Vec<char>, from: usize, to: usize) -> (s: String)
    requires
        from <= to <= v@.len(),
    ensures
        s@ == v@.subrange(from as int, to as int),
{
    let mut s = String::new();
    let mut i = from;
    while i < to
        invariant
            from <= i <= to <= v@.len(),
            s@ == v@.subrange(from as int, i as int),
        decreases to - i,
    {
        s.push(v[i]);
        i += 1;
    }
    s
}

/// The texts that a list of strings holds.
pub open spec fn views(v: Seq<String>) -> Seq<Seq<char>> {
    Seq::new(v.len(), |i: int| v[i]@)
}

/// A copy of a list of strings.
pub fn copy_all(v: &Vec<String>) -> (r: Vec<String>)
    ensures
        views(r@) == views(v@),
{
    let mut r: Vec<String> = Vec::new();
    let mut i: usize = 0;
    while i < v.len()
        invariant
            i <= v@.len(),
            r@ == v@.take(i as int),
        decreases v@.len() - i,
    {
        r.push(v[i].clone());
        i += 1;
    }
    assert(v@.take(i as int) =~= v@);
    r
}

/// `a` and `b` are the same text.
pub fn same(a: &str, b: &str) -> (r: bool)
    ensures
        r == (a@ == b@),
{
    let x = chars_of(a);
    let y = chars_of(b);
    if x.len() != y.len() {
        return false;
    }
    let mut i: usize = 0;
    while i < x.len()
        invariant
            i <= x@.len() == y@.len(),
            forall|j: int| 0 <= j < i ==> x@[j] == y@[j],
            x@ == a@,
            y@ == b@,
        decreases x@.len() - i,
    {
        if x[i] != y[i] {
            assert(a@[i as int] != b@[i as int]);
            return false;
        }
        i += 1;
    }
    assert(x@ =~= y@);
    true
}

/// Whether `p` stands in `s` at position `i`.
pub fn stands_at(s: &Vec<char>, p: &Vec<char>, i: usize) -> (r: bool)
    requires
        i + p@.len() <= s@.len(),
    ensures
        r == occurs_at(s@, p@, i as int),
{
    let n = s.len();
    let mut k: usize = 0;
    while k < p.len()
        invariant
            k <= p@.len(),
            i + p@.len() <= s@.len() == n,
            forall|j: int| 0 <= j < k ==> s@[i + j] == p@[j],
        decreases p@.len() - k,
    {
        if s[i + k] != p[k] {
            assert(s@.subrange(i as int, i + p@.len())[k as int] != p@[k as int]);
            return false;
        }
        k += 1;
    }
    assert(s@.subrange(i as int, i + p@.len()) =~= p@);
    true
}

/// The first position at or after `from` where `p` stands in `s`.
pub fn find_in(s: &Vec<char>, p: &Vec<char>, from: usize) -> (r: Option<usize>)
    ensures
        match r {
            Some(i) => find_from(s@, p@, from as int) == Some(i as int),
            None => find_from(s@, p@, from as int) is None,
        },
{
    if p.len() > s.len() || from > s.len() - p.len() {
        return None;
    }
    let last = s.len() - p.len();
    let mut i = from;
    loop
        invariant
            from <= i <= last,
            last == s@.len() - p@.len(),
            find_from(s@, p@, from as int) == find_from(s@, p@, i as int),
        decreases last - i,
    {
        if stands_at(s, p, i) {
            return Some(i);
        }
        if i == last {
            assert(find_from(s@, p@, i + 1) is None);
            return None;
        }
        i += 1;
    }
}

/// The position, in characters, where `p` first stands in `s`.
pub fn find(s: &str, p: &str) -> (r: Option<usize>)
    ensures
        match r {
            Some(i) => first_at(s@, p@) == Some(i as int) && i + p@.len() <= s@.len() <= usize::MAX,
            None => first_at(s@, p@) is None,
        },
{
    proof {
        lemma_find_from(s@, p@, 0);
    }
    let v = chars_of(s);
    assert(v.len() <= usize::MAX);
    find_in(&v, &chars_of(p), 0)
}

/// Whether `p` stands somewhere in `s`.
pub fn contains(s: &str, p: &str) -> (r: bool)
    ensures
        r == has(s@, p@),
{
    proof {
        lemma_has(s@, p@);
    }
    find(s, p).is_some()
}

/// Replacing a character by another one keeps every position.
pub proof fn lemma_replaced_one(s: Seq<char>, from: char, to: char)
    ensures
        replaced(s, from, seq![to]).len() == s.len(),
        forall|i: int|
            0 <= i < s.len() ==> #[trigger] replaced(s, from, seq![to])[i] == if s[i] == from {
                to
            } else {
                s[i]
            },
    decreases s.len(),
{
    if s.len() > 0 {
        lemma_replaced_one(s.drop_last(), from, to);
    }
}

/// The first `n` characters of `s`.
pub fn head(s: &str, n: usize) -> (r: String)
    requires
        n <= s@.len(),
    ensures
        r@ == s@.take(n as int),
{
    let v = chars_of(s);
    string_of(&v, 0, n)
}

/// What follows the first `n` characters of `s`.
pub fn tail(s: &str, n: usize) -> (r: String)
    requires
        n <= s@.len(),
    ensures
        r@ == s@.skip(n as int),
{
    let v = chars_of(s);
    string_of(&v, n, v.len())
}

/// What is left of a sequence after its longest suffix of `p` ends at `n`.
pub proof fn lemma_drop_end_step(s: Seq<char>, p: spec_fn(char) -> bool, n: int)
    requires
        0 < n <= s.len(),
    ensures
        p(s[n - 1]) ==> drop_end_while(s.take(n), p) == drop_end_while(s.take(n - 1), p),
        !p(s[n - 1]) ==> drop_end_while(s.take(n), p) == s.take(n),
{
    assert(s.take(n).drop_last() =~= s.take(n - 1));
}

/// Dropping a suffix leaves a prefix, which does not end with such a character.
pub proof fn lemma_drop_end_while(s: Seq<char>, p: spec_fn(char) -> bool)
    ensures
        drop_end_while(s, p).len() <= s.len(),
        drop_end_while(s, p) == s.take(drop_end_while(s, p).len() as int),
        drop_end_while(s, p).len() > 0 ==> !p(drop_end_while(s, p).last()),
    decreases s.len(),
{
    if s.len() > 0 && p(s.last()) {
        lemma_drop_end_while(s.drop_last(), p);
        let n = drop_end_while(s, p).len() as int;
        assert(s.drop_last().take(n) =~= s.take(n));
    } else {
        assert(s.take(s.len() as int) =~= s);
    }
}

/// One step of skipping a prefix.
pub proof fn lemma_skip_step(s: Seq<char>, p: spec_fn(char) -> bool, n: int)
    requires
        0 <= n < s.len(),
    ensures
        p(s[n]) ==> skip_while(s.skip(n), p) == skip_while(s.skip(n + 1), p),
        !p(s[n]) ==> skip_while(s.skip(n), p) == s.skip(n),
{
    assert(s.skip(n).drop_first() =~= s.skip(n + 1));
}

/// `s` without leading and trailing white space.
pub fn trim(s: &str) -> (r: String)
    ensures
        r@ == trimmed(s@),
{
    let v = chars_of(s);
    let mut a: usize = 0;
    assert(v@.skip(0) =~= v@);
    while a < v.len() && v[a].is_whitespace()
        invariant
            a <= v@.len(),
            skip_while(v@, space()) == skip_while(v@.skip(a as int), space()),
        decreases v@.len() - a,
    {
        proof {
            lemma_skip_step(v@, space(), a as int);
        }
        a += 1;
    }
    proof {
        if a < v@.len() {
            lemma_skip_step(v@, space(), a as int);
        }
    }
    let ghost rest = v@.skip(a as int);
    assert(skip_while(v@, space()) == rest);
    let mut b = v.len();
    assert(rest.take(rest.len() as int) =~= rest);
    while a < b && v[b - 1].is_whitespace()
        invariant
            a <= b <= v@.len(),
            rest == v@.skip(a as int),
            drop_end_while(rest, space()) == drop_end_while(rest.take(b - a), space()),
        decreases b,
    {
        proof {
            lemma_drop_end_step(rest, space(), b - a);
        }
        b -= 1;
    }
    proof {
        if a < b {
            lemma_drop_end_step(rest, space(), b - a);
        }
        assert(rest.take(b - a) =~= v@.subrange(a as int, b as int));
    }
    string_of(&v, a, b)
}

/// `s` without its trailing characters `c`.
pub fn trim_end_char(s: &str, c: char) -> (r: String)
    ensures
        r@ == drop_end_while(s@, only(c)),
{
    let v = chars_of(s);
    let mut b = v.len();
    assert(v@.take(b as int) =~= v@);
    while 0 < b && v[b - 1] == c
        invariant
            b <= v@.len(),
            drop_end_while(v@, only(c)) == drop_end_while(v@.take(b as int), only(c)),
        decreases b,
    {
        proof {
            lemma_drop_end_step(v@, only(c), b as int);
        }
        b -= 1;
    }
    proof {
        if 0 < b {
            lemma_drop_end_step(v@, only(c), b as int);
        }
        assert(v@.take(b as int) =~= v@.subrange(0, b as int));
    }
    string_of(&v, 0, b)
}

/// `s` without its leading characters `c`.
pub fn trim_start_char(s: &str, c: char) -> (r: String)
    ensures
        r@ == skip_while(s@, only(c)),
{
    let v = chars_of(s);
    let mut a: usize = 0;
    assert(v@.skip(0) =~= v@);
    while a < v.len() && v[a] == c
        invariant
            a <= v@.len(),
            skip_while(v@, only(c)) == skip_while(v@.skip(a as int), only(c)),
        decreases v@.len() - a,
    {
        proof {
            lemma_skip_step(v@, only(c), a as int);
        }
        a += 1;
    }
    proof {
        if a < v@.len() {
            lemma_skip_step(v@, only(c), a as int);
        }
        assert(v@.skip(a as int) =~= v@.subrange(a as int, v@.len() as int));
    }
    string_of(&v, a, v.len())
}

/// `s` with every `from` replaced by the text `to`.
pub fn replace_char(s: &str, from: char, to: &str) -> (r: String)
    ensures
        r@ == replaced(s@, from, to@),
{
    let v = chars_of(s);
    let mut r = String::new();
    let mut i: usize = 0;
    while i < v.len()
        invariant
            i <= v@.len(),
            r@ == replaced(v@.take(i as int), from, to@),
        decreases v@.len() - i,
    {
        assert(v@.take(i + 1).drop_last() =~= v@.take(i as int));
        if v[i] == from {
            r.append(to);
        } else {
            r.push(v[i]);
        }
        i += 1;
    }
    assert(v@.take(i as int) =~= v@);
    r
}

/// The pieces of `s` between its characters `c`; always at least one.
pub open spec fn pieces(s: Seq<char>, c: char) -> Seq<Seq<char>>
    decreases s.len(),
{
    if s.len() == 0 {
        seq![Seq::empty()]
    } else {
        let before = pieces(s.drop_last(), c);
        if s.last() == c {
            before.push(Seq::empty())
        } else {
            before.drop_last().push(before.last().push(s.last()))
        }
    }
}

/// The texts `words`, with `sep` between each two neighbours.
pub open spec fn joined(words: Seq<Seq<char>>, sep: Seq<char>) -> Seq<char>
    decreases words.len(),
{
    if words.len() == 0 {
        Seq::empty()
    } else if words.len() == 1 {
        words[0]
    } else {
        joined(words.drop_last(), sep) + sep + words.last()
    }
}

/// There is always a piece.
pub proof fn lemma_pieces_nonempty(s: Seq<char>, c: char)
    ensures
        pieces(s, c).len() > 0,
    decreases s.len(),
{
    if s.len() > 0 {
        lemma_pieces_nonempty(s.drop_last(), c);
    }
}

/// Joining the pieces by the character that they were parted at gives the text back.
pub proof fn lemma_pieces_joined(s: Seq<char>, c: char)
    ensures
        joined(pieces(s, c), seq![c]) == s,
    decreases s.len(),
{
    if s.len() > 0 {
        let before = pieces(s.drop_last(), c);
        lemma_pieces_nonempty(s.drop_last(), c);
        lemma_pieces_joined(s.drop_last(), c);
        if s.last() == c {
            assert(before.push(Seq::empty()).drop_last() =~= before);
            assert(joined(pieces(s, c), seq![c]) =~= s);
        } else {
            let now = before.drop_last().push(before.last().push(s.last()));
            assert(now.drop_last() =~= before.drop_last());
            assert(joined(now, seq![c]) =~= joined(before, seq![c]).push(s.last()));
            assert(s.drop_last().push(s.last()) =~= s);
        }
    }
}

/// The characters `0` to `9`.
pub open spec fn is_digit(c: char) -> bool {
    '0' <= c <= '9'
}

/// A text of digits alone.
pub open spec fn all_digits(s: Seq<char>) -> bool {
    forall|i: int| 0 <= i < s.len() ==> is_digit(#[trigger] s[i])
}

/// The number that a text of digits writes in base ten.
pub open spec fn digits_value(s: Seq<char>) -> nat
    decreases s.len(),
{
    if s.len() == 0 {
        0
    } else {
        (digits_value(s.drop_last()) * 10 + (s.last() as u32 - 48)) as nat
    }
}

/// The number that a text writes as an optional sign followed by digits, where it
/// is within the range of `i64`.
pub open spec fn number_of(s: Seq<char>) -> Option<int> {
    let negative = s.len() > 0 && s[0] == '-';
    let signed = s.len() > 0 && (s[0] == '-' || s[0] == '+');
    let digits = if signed {
        s.skip(1)
    } else {
        s
    };
    if digits.len() == 0 || !all_digits(digits) {
        None
    } else {
        let value = if negative {
            -(digits_value(digits) as int)
        } else {
            digits_value(digits) as int
        };
        if i64::MIN <= value <= i64::MAX {
            Some(value)
        } else {
            None
        }
    }
}

/// More digits never make the number smaller.
proof fn lemma_digits_value_grows(s: Seq<char>, n: int)
    requires
        0 <= n <= s.len(),
        all_digits(s),
    ensures
        digits_value(s.take(n)) <= digits_value(s),
    decreases s.len() - n,
{
    if n < s.len() {
        assert(s.take(n + 1).drop_last() =~= s.take(n));
        assert(is_digit(s[n]));
        lemma_digits_value_grows(s, n + 1);
    } else {
        assert(s.take(n) =~= s);
    }
}

/// The number that `s` writes, as [`i64`]'s own parser reads it.
pub fn parse_i64(s: &str) -> (r: Option<i64>)
    ensures
        match r {
            Some(n) => number_of(s@) == Some(n as int),
            None => number_of(s@) is None,
        },
{
    let v = chars_of(s);
    let negative = v.len() > 0 && v[0] == '-';
    let start: usize = if v.len() > 0 && (v[0] == '-' || v[0] == '+') {
        1
    } else {
        0
    };
    let ghost digits = v@.skip(start as int);
    assert(start == 0 ==> digits =~= v@);
    if start == v.len() {
        return None;
    }
    let mut value: i128 = 0;
    let mut i = start;
    assert(digits.take(0) =~= Seq::empty());
    while i < v.len()
        invariant
            start <= i <= v@.len(),
            start < v@.len(),
            digits == v@.skip(start as int),
            forall|j: int| 0 <= j < i - start ==> is_digit(digits[j]),
            value == digits_value(digits.take(i - start)),
            0 <= value <= 0x8000_0000_0000_0000,
            v@ == s@,
            negative == (v@[0] == '-'),
            start == 1 <==> (v@[0] == '-' || v@[0] == '+'),
            start <= 1,
        decreases v@.len() - i,
    {
        let c = v[i];
        assert(digits[i - start] == c);
        assert(start == 0 ==> digits =~= v@);
        if c < '0' || '9' < c {
            return None;
        }
        assert(digits.take(i - start + 1).drop_last() =~= digits.take(i - start));
        value = value * 10 + (c as u32 - 48) as i128;
        i += 1;
        if value > 0x8000_0000_0000_0000 {
            proof {
                if all_digits(digits) {
                    lemma_digits_value_grows(digits, i - start);
                }
            }
            return None;
        }
    }
    assert(digits.take(i - start) =~= digits);
    assert(start == 0 ==> digits =~= v@);
    let n: i128 = if negative {
        -value
    } else {
        value
    };
    if n > 0x7fff_ffff_ffff_ffff {
        return None;
    }
    Some(n as i64)
}

/// The digit character of a number below ten.
pub open spec fn digit(n: nat) -> char {
    (48 + n) as char
}

/// `n` written in base ten, without leading zeros.
pub open spec fn decimal_of(n: nat) -> Seq<char>
    decreases n,
{
    if n < 10 {
        seq![digit(n)]
    } else {
        decimal_of(n / 10).push(digit(n % 10))
    }
}

/// `n` written in base ten, without leading zeros.
pub fn decimal(n: u64) -> (r: String)
    ensures
        r@ == decimal_of(n as nat),
    decreases n,
{
    if n < 10 {
        let mut s = String::new();
        s.push((48 + n as u8) as char);
        assert(s@ =~= seq![digit(n as nat)]);
        s
    } else {
        let mut s = decimal(n / 10);
        s.push((48 + (n % 10) as u8) as char);
        s
    }
}

/// Writing a number and reading it back gives the number.
pub proof fn law_decimal_reads_back(n: nat)
    ensures
        all_digits(decimal_of(n)),
        decimal_of(n).len() > 0,
        digits_value(decimal_of(n)) == n,
        n <= i64::MAX ==> number_of(decimal_of(n)) == Some(n as int),
    decreases n,
{
    let s = decimal_of(n);
    if n < 10 {
        assert(s.drop_last() =~= Seq::empty());
        assert(digits_value(Seq::empty()) == 0);
    } else {
        law_decimal_reads_back(n / 10);
        assert(s.drop_last() =~= decimal_of(n / 10));
        assert(s.last() == digit(n % 10));
    }
    assert(is_digit(s.last()));
    assert(all_digits(s)) by {
        assert forall|i: int| 0 <= i < s.len() implies is_digit(#[trigger] s[i]) by {
            if i < s.len() - 1 {
                assert(s[i] == decimal_of(n / 10)[i]);
            }
        }
    }
    assert(is_digit(s[0]));
}

/// A text stands at a position exactly if its characters stand there one after another.
pub proof fn law_occurrence_by_characters(s: Seq<char>, p: Seq<char>, i: int)
    ensures
        occurs_at(s, p, i) <==> 0 <= i && i + p.len() <= s.len() && forall|j: int|
            0 <= j < p.len() ==> s[i + j] == #[trigger] p[j],
{
    if 0 <= i && i + p.len() <= s.len() {
        let part = s.subrange(i, i + p.len());
        if forall|j: int| 0 <= j < p.len() ==> s[i + j] == #[trigger] p[j] {
            assert(part =~= p);
        }
        if part == p {
            assert forall|j: int| 0 <= j < p.len() implies s[i + j] == #[trigger] p[j] by {
                assert(part[j] == s[i + j]);
            }
        }
    }
}

/// A text that is put together with `p` in its middle has `p`, and a search finds it
/// there or earlier.
pub proof fn law_found_in_the_middle(a: Seq<char>, p: Seq<char>, b: Seq<char>)
    ensures
        has(a + p + b, p),
        first_at(a + p + b, p) matches Some(k) && 0 <= k <= a.len(),
{
    let s = a + p + b;
    let i = a.len() as int;
    assert(s.subrange(i, i + p.len()) =~= p);
    assert(occurs_at(s, p, i));
    lemma_find_from(s, p, 0);
}

/// A search finds a position where the text stands and ahead of which it stands nowhere;
/// it finds none only where the text stands nowhere.
pub proof fn law_search_finds_the_first(s: Seq<char>, p: Seq<char>)
    ensures
        match first_at(s, p) {
            Some(k) => {
                &&& 0 <= k <= s.len() - p.len()
                &&& s == s.take(k) + p + s.skip(k + p.len())
                &&& has(s, p)
                &&& forall|a: Seq<char>, b: Seq<char>| s == #[trigger] (a + p + b) ==> k <= a.len()
            },
            None => {
                &&& !(has(s, p))
                &&& forall|a: Seq<char>, b: Seq<char>| s != #[trigger] (a + p + b)
            },
        },
{
    lemma_find_from(s, p, 0);
    lemma_has(s, p);
    if let Some(k) = first_at(s, p) {
        assert(s =~= s.take(k) + s.subrange(k, k + p.len()) + s.skip(k + p.len()));
        assert forall|a: Seq<char>, b: Seq<char>| s == #[trigger] (a + p + b) implies k
            <= a.len() by {
            law_found_in_the_middle(a, p, b);
        }
    } else {
        assert forall|a: Seq<char>, b: Seq<char>| s != #[trigger] (a + p + b) by {
            law_found_in_the_middle(a, p, b);
        }
    }
}

/// Skipping goes past what is to be skipped, up to the first character that is not.
pub proof fn lemma_skip_prefix(a: Seq<char>, m: Seq<char>, p: spec_fn(char) -> bool)
    requires
        forall|i: int| 0 <= i < a.len() ==> p(#[trigger] a[i]),
        m.len() > 0 ==> !p(m[0]),
    ensures
        skip_while(a + m, p) == m,
    decreases a.len(),
{
    if a.len() == 0 {
        assert(a + m =~= m);
    } else {
        assert(p(a[0]));
        assert((a + m).drop_first() =~= a.drop_first() + m);
        assert forall|i: int| 0 <= i < a.drop_first().len() implies p(
            #[trigger] a.drop_first()[i],
        ) by {
            assert(a.drop_first()[i] == a[i + 1]);
        }
        lemma_skip_prefix(a.drop_first(), m, p);
    }
}

/// Dropping goes back over what is to be dropped, up to the last character that is not.
pub proof fn lemma_drop_suffix(m: Seq<char>, b: Seq<char>, p: spec_fn(char) -> bool)
    requires
        forall|i: int| 0 <= i < b.len() ==> p(#[trigger] b[i]),
        m.len() > 0 ==> !p(m.last()),
    ensures
        drop_end_while(m + b, p) == m,
    decreases b.len(),
{
    if b.len() == 0 {
        assert(m + b =~= m);
    } else {
        assert(p(b[b.len() - 1]));
        assert((m + b).drop_last() =~= m + b.drop_last());
        assert forall|i: int| 0 <= i < b.drop_last().len() implies p(
            #[trigger] b.drop_last()[i],
        ) by {
            assert(b.drop_last()[i] == b[i]);
        }
        lemma_drop_suffix(m, b.drop_last(), p);
    }
}

/// Trimming takes away the white space at both ends, and nothing else.
pub proof fn law_trimming_strips_the_ends(a: Seq<char>, m: Seq<char>, b: Seq<char>)
    requires
        forall|i: int| 0 <= i < a.len() ==> is_space(#[trigger] a[i]),
        forall|i: int| 0 <= i < b.len() ==> is_space(#[trigger] b[i]),
        m.len() > 0 ==> !is_space(m[0]) && !is_space(m.last()),
    ensures
        trimmed(a + m + b) == m,
{
    let p = space();
    assert(a + m + b =~= a + (m + b));
    if m.len() > 0 {
        lemma_skip_prefix(a, m + b, p);
        lemma_drop_suffix(m, b, p);
    } else {
        let all = a + b;
        assert(a + m + b =~= all + m);
        assert forall|i: int| 0 <= i < all.len() implies p(#[trigger] all[i]) by {
            if i < a.len() {
                assert(all[i] == a[i]);
            } else {
                assert(all[i] == b[i - a.len()]);
            }
        }
        lemma_skip_prefix(all, m, p);
        assert(m =~= Seq::empty());
    }
}

/// Every text is what trimming leaves of it with white space around.
pub proof fn law_trimmed_is_the_middle(s: Seq<char>)
    ensures
        exists|a: Seq<char>, b: Seq<char>|
            {
                &&& s == #[trigger] (a + trimmed(s) + b)
                &&& forall|i: int| 0 <= i < a.len() ==> is_space(#[trigger] a[i])
                &&& forall|i: int| 0 <= i < b.len() ==> is_space(#[trigger] b[i])
            },
        trimmed(s).len() > 0 ==> !is_space(trimmed(s)[0]) && !is_space(trimmed(s).last()),
        trimmed(trimmed(s)) == trimmed(s),
    decreases s.len(),
{
    if s.len() > 0 && is_space(s[0]) {
        let rest = s.drop_first();
        law_trimmed_is_the_middle(rest);
        let (a, b) = choose|a: Seq<char>, b: Seq<char>|
            {
                &&& rest == #[trigger] (a + trimmed(rest) + b)
                &&& forall|i: int| 0 <= i < a.len() ==> is_space(#[trigger] a[i])
                &&& forall|i: int| 0 <= i < b.len() ==> is_space(#[trigger] b[i])
            };
        let longer = seq![s[0]] + a;
        assert(s =~= seq![s[0]] + rest);
        assert(seq![s[0]] + (a + trimmed(s) + b) =~= longer + trimmed(s) + b);
        assert forall|i: int| 0 <= i < longer.len() implies is_space(#[trigger] longer[i]) by {
            if i > 0 {
                assert(longer[i] == a[i - 1]);
            }
        }
    } else {
        let a = Seq::<char>::empty();
        let m = trimmed(s);
        lemma_drop_end_while(s, space());
        lemma_dropped_all(s, space());
        let b = s.skip(m.len() as int);
        assert(s =~= a + m + b);
        if m.len() > 0 {
            assert(m[0] == s[0]);
        }
        assert forall|i: int| 0 <= i < b.len() implies is_space(#[trigger] b[i]) by {
            assert(b[i] == s[m.len() + i]);
        }
        if m.len() > 0 {
            law_trimming_strips_the_ends(a, m, a);
            assert(a + m + a =~= m);
        }
    }
}

/// What is dropped at the end are characters to be dropped.
pub proof fn lemma_dropped_all(s: Seq<char>, p: spec_fn(char) -> bool)
    ensures
        forall|i: int| drop_end_while(s, p).len() <= i < s.len() ==> p(#[trigger] s[i]),
    decreases s.len(),
{
    if s.len() > 0 && p(s.last()) {
        lemma_dropped_all(s.drop_last(), p);
        assert forall|i: int| drop_end_while(s, p).len() <= i < s.len() implies p(
            #[trigger] s[i],
        ) by {
            if i < s.len() - 1 {
                assert(s.drop_last()[i] == s[i]);
            }
        }
    }
}

/// Dropping a character at the end drops it as often as it stands there, and dropping it
/// at the start likewise.
pub proof fn law_one_character_is_stripped(m: Seq<char>, c: char, n: nat)
    ensures
        m.len() == 0 || m.last() != c ==> drop_end_while(
            m + Seq::new(n, |i: int| c),
            only(c),
        ) == m,
        m.len() == 0 || m[0] != c ==> skip_while(Seq::new(n, |i: int| c) + m, only(c)) == m,
{
    let run = Seq::new(n, |i: int| c);
    if m.len() == 0 || m.last() != c {
        lemma_drop_suffix(m, run, only(c));
    }
    if m.len() == 0 || m[0] != c {
        lemma_skip_prefix(run, m, only(c));
    }
}

/// Replacing goes character by character: what is replaced of two texts one after the
/// other is what is replaced of each; of one character it is the text to put for it, or
/// the character itself.
pub proof fn law_replacing_goes_by_characters(
    a: Seq<char>,
    b: Seq<char>,
    c: char,
    from: char,
    to: Seq<char>,
)
    ensures
        replaced(a + b, from, to) == replaced(a, from, to) + replaced(b, from, to),
        replaced(seq![from], from, to) == to,
        c != from ==> replaced(seq![c], from, to) == seq![c],
        (forall|i: int| 0 <= i < a.len() ==> #[trigger] a[i] != from) ==> replaced(a, from, to)
            == a,
    decreases b.len(),
{
    lemma_nothing_to_replace(a, from, to);
    assert(seq![from].drop_last() =~= Seq::empty());
    assert(seq![c].drop_last() =~= Seq::empty());
    assert(replaced(Seq::empty(), from, to) =~= Seq::empty());
    assert(replaced(seq![from], from, to) =~= to);
    assert(replaced(seq![c], from, to) =~= if c == from {
        to
    } else {
        seq![c]
    });
    if b.len() == 0 {
        assert(a + b =~= a);
        assert(replaced(a, from, to) + replaced(b, from, to) =~= replaced(a, from, to));
    } else {
        law_replacing_goes_by_characters(a, b.drop_last(), c, from, to);
        assert((a + b).drop_last() =~= a + b.drop_last());
        assert((a + b).last() == b.last());
        assert(replaced(a + b, from, to) =~= replaced(a, from, to) + replaced(b, from, to));
    }
}

proof fn lemma_nothing_to_replace(s: Seq<char>, from: char, to: Seq<char>)
    ensures
        (forall|i: int| 0 <= i < s.len() ==> #[trigger] s[i] != from) ==> replaced(s, from, to)
            == s,
    decreases s.len(),
{
    if s.len() > 0 && forall|i: int| 0 <= i < s.len() ==> #[trigger] s[i] != from {
        let init = s.drop_last();
        assert forall|i: int| 0 <= i < init.len() implies #[trigger] init[i] != from by {
            assert(init[i] == s[i]);
        }
        lemma_nothing_to_replace(init, from, to);
        assert(s[s.len() - 1] != from);
        assert(init + seq![s.last()] =~= s);
    }
}

/// Parting at a character loses nothing, and no piece holds that character.
pub proof fn law_pieces_make_up_the_text(s: Seq<char>, c: char)
    ensures
        pieces(s, c).len() > 0,
        joined(pieces(s, c), seq![c]) == s,
        forall|k: int, i: int|
            0 <= k < pieces(s, c).len() && 0 <= i < pieces(s, c)[k].len()
                ==> #[trigger] pieces(s, c)[k][i] != c,
    decreases s.len(),
{
    lemma_pieces_nonempty(s, c);
    lemma_pieces_joined(s, c);
    if s.len() > 0 {
        law_pieces_make_up_the_text(s.drop_last(), c);
    }
}

/// Joining two lists of texts puts the separator between what each of them gives.
pub proof fn law_joining_in_two_parts(a: Seq<Seq<char>>, b: Seq<Seq<char>>, sep: Seq<char>)
    requires
        a.len() > 0,
        b.len() > 0,
    ensures
        joined(a + b, sep) == joined(a, sep) + sep + joined(b, sep),
        a.len() == 1 ==> joined(a, sep) == a[0],
    decreases b.len(),
{
    assert((a + b).drop_last() =~= a + b.drop_last());
    if b.len() == 1 {
        assert(a + b.drop_last() =~= a);
    } else {
        law_joining_in_two_parts(a, b.drop_last(), sep);
        assert(joined(a + b, sep) =~= joined(a, sep) + sep + joined(b, sep));
    }
}

/// A further digit makes the number that is written ten times as large, and adds its own
/// value; a number is written in base ten, a digit for each place.
pub proof fn law_a_digit_for_each_place(n: nat, d: nat, s: Seq<char>)
    requires
        d < 10,
    ensures
        decimal_of(d) == seq![(48 + d) as char],
        n > 0 ==> decimal_of(10 * n + d) == decimal_of(n).push((48 + d) as char),
        digits_value(s.push((48 + d) as char)) == 10 * digits_value(s) + d,
{
    assert((10 * n + d) / 10 == n);
    assert((10 * n + d) % 10 == d);
    assert(s.push((48 + d) as char).drop_last() =~= s);
}

/// Which texts are read as a number, and as which: digits, alone or behind a sign, whose
/// value is in range.
pub proof fn law_numbers_with_a_sign(s: Seq<char>)
    ensures
        s.len() > 0 && all_digits(s) ==> {
            let v = digits_value(s) as int;
            &&& number_of(s) == if v <= i64::MAX {
                Some(v)
            } else {
                None
            }
            &&& number_of(seq!['+'] + s) == number_of(s)
            &&& number_of(seq!['-'] + s) == if v <= 0x8000_0000_0000_0000 {
                Some(-v)
            } else {
                None
            }
        },
        number_of(s) is Some ==> {
            ||| s.len() > 0 && all_digits(s)
            ||| s.len() > 1 && (s[0] == '+' || s[0] == '-') && all_digits(s.skip(1))
        },
        all_digits(s) <==> forall|i: int|
            0 <= i < s.len() ==> '0' <= #[trigger] s[i] && s[i] <= '9',
{
    assert((seq!['+'] + s).skip(1) =~= s);
    assert((seq!['-'] + s).skip(1) =~= s);
    if s.len() > 0 && all_digits(s) {
        assert(is_digit(s[0]));
    }
    if forall|i: int| 0 <= i < s.len() ==> '0' <= #[trigger] s[i] && s[i] <= '9' {
        assert(all_digits(s));
    }
    if all_digits(s) {
        assert forall|i: int| 0 <= i < s.len() implies '0' <= #[trigger] s[i] && s[i] <= '9' by {
            assert(is_digit(s[i]));
        }
    }
}

/// A text whose first character stands in it only once is found first where it stands
/// behind a text that does not have it.
pub proof fn law_found_behind(a: Seq<char>, p: Seq<char>, b: Seq<char>)
    requires
        p.len() > 0,
        forall|j: int| 0 < j < p.len() ==> #[trigger] p[j] != p[0],
        !(has(a, p)),
    ensures
        first_at(a + p + b, p) == Some(a.len() as int),
        (a + p + b).take(a.len() as int) == a,
        (a + p + b).skip((a + p).len() as int) == b,
{
    let s = a + p + b;
    let n = a.len() as int;
    assert(s.take(n) =~= a);
    assert(s.skip(n + p.len()) =~= b);
    assert(s.subrange(n, n + p.len()) =~= p);
    assert forall|j: int| 0 <= j < n implies !occurs_at(s, p, j) by {
        if occurs_at(s, p, j) {
            if j + p.len() <= n {
                assert(s.subrange(j, j + p.len()) =~= a.subrange(j, j + p.len()));
                assert(occurs_at(a, p, j));
            } else {
                assert(s.subrange(j, j + p.len())[n - j] == s[n]);
                assert(s[n] == p[0]);
                assert(p[n - j] != p[0]);
            }
        }
    }
    lemma_first_at_is(s, p, n);
}

/// A single character is found nowhere exactly where no character of the text is it.
pub proof fn law_one_character_is_found(s: Seq<char>, c: char)
    ensures
        has(s, seq![c]) <==> exists|i: int| 0 <= i < s.len() && #[trigger] s[i] == c,
{
    if has(s, seq![c]) {
        let i = choose|i: int| occurs_at(s, seq![c], i);
        assert(s.subrange(i, i + 1)[0] == s[i]);
    }
    if exists|i: int| 0 <= i < s.len() && #[trigger] s[i] == c {
        let i = choose|i: int| 0 <= i < s.len() && #[trigger] s[i] == c;
        assert(s.subrange(i, i + 1) =~= seq![c]);
        assert(occurs_at(s, seq![c], i));
    }
}

/// A text is found first where it stands behind a text, if it does not stand earlier, not
/// even in part behind that text.
pub proof fn law_found_first(a: Seq<char>, p: Seq<char>, b: Seq<char>)
    requires
        p.len() > 0,
        !(has(a + p.drop_last(), p)),
    ensures
        first_at(a + p + b, p) == Some(a.len() as int),
        (a + p + b).skip((a + p).len() as int) == b,
{
    let s = a + p + b;
    let part = a + p.drop_last();
    let n = a.len() as int;
    assert(s.skip(n + p.len()) =~= b);
    assert(s.subrange(n, n + p.len()) =~= p);
    assert forall|j: int| 0 <= j < n implies !occurs_at(s, p, j) by {
        if occurs_at(s, p, j) {
            assert(s.subrange(j, j + p.len()) =~= part.subrange(j, j + p.len()));
            assert(occurs_at(part, p, j));
        }
    }
    lemma_first_at_is(s, p, n);
}

} // verus!
