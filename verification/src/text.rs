//! Small text helpers.

use vstd::prelude::*;
use vstd::multiset::Multiset;
use vstd::string::*;

verus! {

/// `String::push`: the character is appended.
pub assume_specification[ String::push ](s: &mut String, c: char)
    ensures
        final(s)@ == old(s)@.push(c),
;

/// The two texts hold the same characters.
pub fn str_eq(a: &str, b: &str) -> (r: bool)
    ensures
        r == (a@ == b@),
{
    let n: usize = a.unicode_len();
    if n != b.unicode_len() {
        assert(a@.len() != b@.len());
        return false;
    }
    let mut i: usize = 0;
    while i < n
        invariant
            i <= n,
            n == a@.len(),
            n == b@.len(),
            forall|k: int| 0 <= k < i ==> a@[k] == b@[k],
        decreases n - i,
    {
        if a.get_char(i) != b.get_char(i) {
            assert(a@[i as int] != b@[i as int]);
            return false;
        }
        i += 1;
    }
    assert(a@ =~= b@);
    true
}

/// The decimal digit of `d`.
pub open spec fn digit(d: int) -> char {
    if d == 0 {
        '0'
    } else if d == 1 {
        '1'
    } else if d == 2 {
        '2'
    } else if d == 3 {
        '3'
    } else if d == 4 {
        '4'
    } else if d == 5 {
        '5'
    } else if d == 6 {
        '6'
    } else if d == 7 {
        '7'
    } else if d == 8 {
        '8'
    } else {
        '9'
    }
}

/// `n` written in decimal, without leading zeros.
pub open spec fn decimal(n: int) -> Seq<char>
    decreases n,
{
    if n < 10 {
        seq![digit(n)]
    } else {
        decimal(n / 10).push(digit(n % 10))
    }
}

fn digit_char(d: u64) -> (c: char)
    requires
        d < 10,
    ensures
        c == digit(d as int),
{
    if d == 0 {
        '0'
    } else if d == 1 {
        '1'
    } else if d == 2 {
        '2'
    } else if d == 3 {
        '3'
    } else if d == 4 {
        '4'
    } else if d == 5 {
        '5'
    } else if d == 6 {
        '6'
    } else if d == 7 {
        '7'
    } else if d == 8 {
        '8'
    } else {
        '9'
    }
}

/// Append `n` in decimal.
pub fn push_decimal(s: &mut String, n: u64)
    ensures
        final(s)@ == old(s)@ + decimal(n as int),
    decreases n,
{
    if n >= 10 {
        push_decimal(s, n / 10);
    }
    let ghost mid = s@;
    s.push(digit_char(n % 10));
    proof {
        if n >= 10 {
            assert(s@ =~= old(s)@ + decimal(n as int / 10).push(digit(n as int % 10)));
        } else {
            assert(s@ =~= old(s)@ + seq![digit(n as int)]);
        }
    }
}

/// `n` in decimal.
pub fn decimal_of(n: u64) -> (s: String)
    ensures
        s@ == decimal(n as int),
{
    let mut s: String = String::new();
    push_decimal(&mut s, n);
    assert(s@ =~= decimal(n as int));
    s
}

/// Append a text.
pub fn push_text(s: &mut String, t: &str)
    ensures
        final(s)@ == old(s)@ + t@,
{
    s.append(t);
}

/// A text of its own.
pub fn text(t: &str) -> (s: String)
    ensures
        s@ == t@,
{
    t.to_owned()
}

// ---------------------------------------------------------------------------
// Columns
// ---------------------------------------------------------------------------
/// `n` spaces.
pub open spec fn spaces(n: int) -> Seq<char>
    decreases n,
{
    if n <= 0 {
        seq![]
    } else {
        spaces(n - 1).push(' ')
    }
}

fn push_spaces(s: &mut String, n: usize)
    ensures
        final(s)@ == old(s)@ + spaces(n as int),
{
    let ghost s0 = s@;
    let mut i: usize = 0;
    assert(s0 + spaces(0) =~= s0);
    while i < n
        invariant
            i <= n,
            s@ == s0 + spaces(i as int),
        decreases n - i,
    {
        s.push(' ');
        assert(s@ =~= s0 + spaces(i as int + 1));
        i += 1;
    }
}

/// A text filled up to `width` on the right.
pub open spec fn left_column(t: Seq<char>, width: int) -> Seq<char> {
    t + spaces(width - t.len())
}

/// A text filled up to `width` on the left.
pub open spec fn right_column(t: Seq<char>, width: int) -> Seq<char> {
    spaces(width - t.len()) + t
}

/// Append a text filled up on the right.
pub fn push_left(s: &mut String, t: &str, width: usize)
    ensures
        final(s)@ == old(s)@ + left_column(t@, width as int),
{
    let ghost s0 = s@;
    let n: usize = t.unicode_len();
    s.append(t);
    if n < width {
        push_spaces(s, width - n);
    }
    proof {
        if n >= width {
            assert(spaces(width - t@.len()) =~= seq![]);
        }
        assert(s@ =~= s0 + left_column(t@, width as int));
    }
}

/// Append a text filled up on the left.
pub fn push_right(s: &mut String, t: &str, width: usize)
    ensures
        final(s)@ == old(s)@ + right_column(t@, width as int),
{
    let ghost s0 = s@;
    let n: usize = t.unicode_len();
    if n < width {
        push_spaces(s, width - n);
    }
    s.append(t);
    proof {
        if n >= width {
            assert(spaces(width - t@.len()) =~= seq![]);
        }
        assert(s@ =~= s0 + right_column(t@, width as int));
    }
}

// ---------------------------------------------------------------------------
// Decimals
// ---------------------------------------------------------------------------
/// A number of tenths with one decimal.
pub open spec fn tenths(t: int) -> Seq<char> {
    decimal(t / 10) + "."@ + decimal(t % 10)
}

/// Append tenths.
pub fn push_tenths(s: &mut String, t: u64)
    ensures
        final(s)@ == old(s)@ + tenths(t as int),
{
    let ghost s0 = s@;
    push_decimal(s, t / 10);
    push_text(s, ".");
    push_decimal(s, t % 10);
    assert(s@ =~= s0 + tenths(t as int));
}

/// A number of thousandths with three decimals.
pub open spec fn thousandths(t: int) -> Seq<char> {
    decimal(t / 1000) + "."@ + seq![digit(t / 100 % 10), digit(t / 10 % 10), digit(t % 10)]
}

/// Append thousandths.
pub fn push_thousandths(s: &mut String, t: u64)
    ensures
        final(s)@ == old(s)@ + thousandths(t as int),
{
    let ghost s0 = s@;
    push_decimal(s, t / 1000);
    push_text(s, ".");
    s.push(digit_char(t / 100 % 10));
    s.push(digit_char(t / 10 % 10));
    s.push(digit_char(t % 10));
    assert(s@ =~= s0 + thousandths(t as int));
}

/// Append `true` or `false`.
pub fn push_bool(s: &mut String, b: bool)
    ensures
        final(s)@ == old(s)@ + bool_text(b),
{
    if b {
        push_text(s, "true");
    } else {
        push_text(s, "false");
    }
}

pub open spec fn bool_text(b: bool) -> Seq<char> {
    if b {
        "true"@
    } else {
        "false"@
    }
}

// ---------------------------------------------------------------------------
// Parts of a text
// ---------------------------------------------------------------------------
/// `pat` stands in `s` at place `i`.
pub open spec fn stands_at(s: Seq<char>, pat: Seq<char>, i: int) -> bool {
    &&& 0 <= i
    &&& i + pat.len() <= s.len()
    &&& s.subrange(i, i + pat.len()) == pat
}

fn found_at(s: &str, n: usize, pat: &str, m: usize, i: usize) -> (r: bool)
    requires
        n == s@.len(),
        m == pat@.len(),
        i <= n,
    ensures
        r == stands_at(s@, pat@, i as int),
{
    if m > n - i {
        return false;
    }
    let mut k: usize = 0;
    while k < m
        invariant
            k <= m,
            n == s@.len(),
            m == pat@.len(),
            i + m <= n,
            forall|j: int| 0 <= j < k ==> s@[i + j] == pat@[j],
        decreases m - k,
    {
        if s.get_char(i + k) != pat.get_char(k) {
            assert(s@.subrange(i as int, i + m)[k as int] == s@[i + k]);
            return false;
        }
        k += 1;
    }
    assert(s@.subrange(i as int, i + m) =~= pat@);
    true
}

/// `s` begins with `pat`.
pub fn starts_with(s: &str, pat: &str) -> (r: bool)
    ensures
        r == stands_at(s@, pat@, 0),
{
    found_at(s, s.unicode_len(), pat, pat.unicode_len(), 0)
}

/// `pat` stands somewhere in `s`.
pub open spec fn occurs(s: Seq<char>, pat: Seq<char>) -> bool {
    exists|i: int| #[trigger] stands_at(s, pat, i)
}

pub fn contains_text(s: &str, pat: &str) -> (r: bool)
    ensures
        r == occurs(s@, pat@),
{
    let n: usize = s.unicode_len();
    let m: usize = pat.unicode_len();
    if m > n {
        assert forall|k: int| !#[trigger] stands_at(s@, pat@, k) by {}
        return false;
    }
    let last: usize = n - m;
    let mut i: usize = 0;
    while i < last
        invariant
            i <= last,
            last + m == n,
            n == s@.len(),
            m == pat@.len(),
            forall|k: int| 0 <= k < i ==> !#[trigger] stands_at(s@, pat@, k),
        decreases last - i,
    {
        if found_at(s, n, pat, m, i) {
            return true;
        }
        i += 1;
    }
    let r: bool = found_at(s, n, pat, m, last);
    proof {
        if !r {
            assert forall|k: int| !#[trigger] stands_at(s@, pat@, k) by {
                if k > last {
                    assert(k + pat@.len() > s@.len());
                }
            }
        }
    }
    r
}

/// An upper-case ASCII letter in lower case; anything else as it is.
pub open spec fn lower(c: char) -> char {
    if 'A' <= c && c <= 'Z' {
        ((c as u8 + 32) as u8) as char
    } else {
        c
    }
}

/// A text with its ASCII letters in lower case.
pub open spec fn lowered(s: Seq<char>) -> Seq<char> {
    s.map_values(|c: char| lower(c))
}

pub fn lower_text(s: &str) -> (r: String)
    ensures
        r@ == lowered(s@),
{
    let n: usize = s.unicode_len();
    let mut r: String = String::new();
    let mut i: usize = 0;
    assert(r@ =~= lowered(s@.take(0)));
    while i < n
        invariant
            i <= n,
            n == s@.len(),
            r@ == lowered(s@.take(i as int)),
        decreases n - i,
    {
        let c: char = s.get_char(i);
        let l: char = if 'A' <= c && c <= 'Z' {
            (c as u8 + 32) as char
        } else {
            c
        };
        assert(l == lower(c));
        let ghost r0 = r@;
        r.push(l);
        assert(r@ =~= lowered(s@.take(i as int + 1)));
        i += 1;
    }
    assert(s@.take(n as int) =~= s@);
    r
}

/// The parts of a text between commas.
pub open spec fn split_commas(s: Seq<char>) -> Seq<Seq<char>>
    decreases s.len(),
{
    if s.len() == 0 {
        seq![seq![]]
    } else {
        let before = split_commas(s.drop_last());
        if s.last() == ',' {
            before.push(seq![])
        } else {
            before.drop_last().push(before.last().push(s.last()))
        }
    }
}

/// The texts of these strings.
pub open spec fn views(v: Seq<String>) -> Seq<Seq<char>> {
    v.map_values(|s: String| s@)
}

pub fn split_at_commas(s: &str) -> (parts: Vec<String>)
    ensures
        views(parts@) == split_commas(s@),
{
    let n: usize = s.unicode_len();
    let mut parts: Vec<String> = Vec::new();
    let mut cur: String = String::new();
    let mut i: usize = 0;
    proof {
        assert(s@.take(0) =~= seq![]);
        assert(views(parts@).push(cur@) =~= split_commas(s@.take(0)));
    }
    while i < n
        invariant
            i <= n,
            n == s@.len(),
            views(parts@).push(cur@) == split_commas(s@.take(i as int)),
        decreases n - i,
    {
        let c: char = s.get_char(i);
        let ghost v0 = views(parts@);
        let ghost c0 = cur@;
        assert(s@.take(i as int + 1).drop_last() =~= s@.take(i as int));
        if c == ',' {
            let mut next: String = String::new();
            std::mem::swap(&mut cur, &mut next);
            parts.push(next);
            proof {
                assert(views(parts@) =~= v0.push(c0));
                assert(cur@ =~= seq![]);
                assert(views(parts@).push(cur@) =~= split_commas(s@.take(i as int + 1)));
            }
        } else {
            cur.push(c);
            proof {
                let before = v0.push(c0);
                assert(before.drop_last() =~= v0);
                assert(views(parts@).push(cur@) =~= split_commas(s@.take(i as int + 1)));
            }
        }
        i += 1;
    }
    let ghost v0 = views(parts@);
    let ghost c0 = cur@;
    parts.push(cur);
    proof {
        assert(s@.take(n as int) =~= s@);
        assert(views(parts@) =~= v0.push(c0));
    }
    parts
}

/// The texts one after another, with a separator between them.
pub open spec fn joined(parts: Seq<Seq<char>>, sep: Seq<char>) -> Seq<char>
    decreases parts.len(),
{
    if parts.len() == 0 {
        seq![]
    } else if parts.len() == 1 {
        parts[0]
    } else {
        joined(parts.drop_last(), sep) + sep + parts.last()
    }
}

pub fn join(parts: &Vec<String>, sep: &str) -> (s: String)
    ensures
        s@ == joined(views(parts@), sep@),
{
    let ghost pv = views(parts@);
    let mut s: String = String::new();
    let mut i: usize = 0;
    assert(pv.take(0) =~= seq![]);
    assert(s@ =~= joined(pv.take(0), sep@));
    while i < parts.len()
        invariant
            i <= parts@.len(),
            pv == views(parts@),
            s@ == joined(pv.take(i as int), sep@),
        decreases parts.len() - i,
    {
        let ghost s0 = s@;
        assert(pv.take(i as int + 1).drop_last() =~= pv.take(i as int));
        if i > 0 {
            push_text(&mut s, sep);
        }
        push_text(&mut s, parts[i].as_str());
        proof {
            if i == 0 {
                assert(s0 =~= seq![]);
                assert(s@ =~= pv[0]);
            }
        }
        i += 1;
    }
    assert(pv.take(pv.len() as int) =~= pv);
    s
}

/// Add a line.
pub fn push_line(out: &mut Vec<String>, line: String)
    ensures
        views(final(out)@) == views(old(out)@).push(line@),
{
    let ghost l = line@;
    out.push(line);
    assert(views(out@) =~= views(old(out)@).push(l));
}

// ---------------------------------------------------------------------------
// Numbers in a text
// ---------------------------------------------------------------------------
pub open spec fn is_digit(c: char) -> bool {
    '0' <= c && c <= '9'
}

/// What these digits stand for; nothing where another character is among
/// them.
pub open spec fn digits_value(s: Seq<char>) -> Option<int>
    decreases s.len(),
{
    if s.len() == 0 {
        Some(0)
    } else {
        match digits_value(s.drop_last()) {
            Some(v) => if is_digit(s.last()) {
                Some(v * 10 + (s.last() as int - '0' as int))
            } else {
                None
            },
            None => None,
        }
    }
}

/// The number that a text stands for: digits, with a plus sign or without.
pub open spec fn number_of(s: Seq<char>) -> Option<u64> {
    let d = if s.len() > 0 && s[0] == '+' {
        s.skip(1)
    } else {
        s
    };
    if d.len() == 0 {
        None
    } else {
        match digits_value(d) {
            Some(v) => if v <= u64::MAX {
                Some(v as u64)
            } else {
                None
            },
            None => None,
        }
    }
}

/// No number in range begins like this.
pub open spec fn hopeless(v: Option<int>) -> bool {
    match v {
        Some(x) => x > u64::MAX,
        None => true,
    }
}

proof fn lemma_hopeless(d: Seq<char>, i: int)
    requires
        0 <= i <= d.len(),
        hopeless(digits_value(d.take(i))),
    ensures
        hopeless(digits_value(d)),
    decreases d.len() - i,
{
    if i < d.len() {
        assert(d.take(i + 1).drop_last() =~= d.take(i));
        lemma_hopeless(d, i + 1);
    } else {
        assert(d.take(i) =~= d);
    }
}

/// Read a number.
pub fn parse_number(s: &str) -> (r: Option<u64>)
    ensures
        r == number_of(s@),
{
    let n: usize = s.unicode_len();
    let start: usize = if n > 0 && s.get_char(0) == '+' {
        1
    } else {
        0
    };
    let ghost d = s@.skip(start as int);
    assert(start == 0 ==> d =~= s@);
    if start == n {
        return None;
    }
    let mut v: u64 = 0;
    let mut i: usize = start;
    assert(d.take(0) =~= seq![]);
    while i < n
        invariant
            start <= i <= n,
            start <= 1,
            n == s@.len(),
            d == s@.skip(start as int),
            number_of(s@) == (match digits_value(d) {
                Some(x) => if x <= u64::MAX {
                    Some(x as u64)
                } else {
                    None
                },
                None => None,
            }),
            digits_value(d.take(i - start)) == Some(v as int),
        decreases n - i,
    {
        let c: char = s.get_char(i);
        let ghost k = i - start;
        proof {
            assert(d.take(k + 1).drop_last() =~= d.take(k));
            assert(d.take(k + 1).last() == c);
        }
        if c < '0' || c > '9' {
            proof {
                lemma_hopeless(d, k + 1);
            }
            return None;
        }
        let digit: u64 = (c as u32 - '0' as u32) as u64;
        let wide: u128 = v as u128 * 10 + digit as u128;
        if wide > u64::MAX as u128 {
            proof {
                lemma_hopeless(d, k + 1);
            }
            return None;
        }
        v = wide as u64;
        i += 1;
    }
    assert(d.take(d.len() as int) =~= d);
    Some(v)
}

proof fn lemma_digit(d: int)
    requires
        0 <= d < 10,
    ensures
        is_digit(digit(d)),
        digit(d) as int - '0' as int == d,
{
}

proof fn lemma_decimal_digits(n: int)
    requires
        0 <= n,
    ensures
        digits_value(decimal(n)) == Some(n),
        decimal(n).len() > 0,
        is_digit(decimal(n)[0]),
    decreases n,
{
    lemma_digit(n % 10);
    if n < 10 {
        assert(decimal(n).drop_last() =~= seq![]);
        assert(digits_value(decimal(n).drop_last()) == Some(0int));
        assert(decimal(n).last() == digit(n));
    } else {
        assert(decimal(n).last() == digit(n % 10));
        lemma_decimal_digits(n / 10);
        assert(decimal(n).drop_last() =~= decimal(n / 10));
    }
}

/// A number that was written down is read back.
pub proof fn law_numbers_are_read_back(n: u64)
    ensures
        number_of(decimal(n as int)) == Some(n),
{
    lemma_decimal_digits(n as int);
}

// ---------------------------------------------------------------------------
// Order of texts
// ---------------------------------------------------------------------------
/// `a` stands before `b` in a dictionary, or is the same.
pub open spec fn text_le(a: Seq<char>, b: Seq<char>) -> bool
    decreases a.len(),
{
    if a.len() == 0 {
        true
    } else if b.len() == 0 {
        false
    } else if a[0] != b[0] {
        a[0] < b[0]
    } else {
        text_le(a.skip(1), b.skip(1))
    }
}

fn le_text(a: &str, b: &str) -> (r: bool)
    ensures
        r == text_le(a@, b@),
{
    let n: usize = a.unicode_len();
    let m: usize = b.unicode_len();
    let mut i: usize = 0;
    assert(a@.skip(0) =~= a@);
    assert(b@.skip(0) =~= b@);
    while i < n && i < m
        invariant
            i <= n,
            i <= m,
            n == a@.len(),
            m == b@.len(),
            text_le(a@, b@) == text_le(a@.skip(i as int), b@.skip(i as int)),
        decreases n - i,
    {
        let x: char = a.get_char(i);
        let y: char = b.get_char(i);
        assert(a@.skip(i as int)[0] == x);
        assert(b@.skip(i as int)[0] == y);
        if x != y {
            return x < y;
        }
        assert(a@.skip(i as int).skip(1) =~= a@.skip(i as int + 1));
        assert(b@.skip(i as int).skip(1) =~= b@.skip(i as int + 1));
        i += 1;
    }
    i == n
}

proof fn lemma_le_total(a: Seq<char>, b: Seq<char>)
    ensures
        text_le(a, b) || text_le(b, a),
    decreases a.len(),
{
    if a.len() > 0 && b.len() > 0 && a[0] == b[0] {
        lemma_le_total(a.skip(1), b.skip(1));
    }
}

proof fn lemma_le_trans(a: Seq<char>, b: Seq<char>, c: Seq<char>)
    requires
        text_le(a, b),
        text_le(b, c),
    ensures
        text_le(a, c),
    decreases a.len(),
{
    if a.len() > 0 && b.len() > 0 && c.len() > 0 && a[0] == b[0] && b[0] == c[0] {
        lemma_le_trans(a.skip(1), b.skip(1), c.skip(1));
    }
}

/// The texts stand in order.
pub open spec fn texts_sorted(v: Seq<Seq<char>>) -> bool {
    forall|i: int, j: int| 0 <= i < j < v.len() ==> text_le(#[trigger] v[i], #[trigger] v[j])
}

/// Put a text where it belongs.
fn insert_text(v: &mut Vec<String>, s: String)
    requires
        texts_sorted(views(old(v)@)),
    ensures
        texts_sorted(views(final(v)@)),
        views(final(v)@).to_multiset() == views(old(v)@).to_multiset().insert(s@),
{
    let ghost v0 = views(v@);
    let ghost sv = s@;
    let mut i: usize = 0;
    while i < v.len() && le_text(v[i].as_str(), s.as_str())
        invariant
            i <= v@.len(),
            v0 == views(v@),
            sv == s@,
            forall|k: int| 0 <= k < i ==> text_le(#[trigger] v0[k], sv),
        decreases v.len() - i,
    {
        assert(v0[i as int] == v@[i as int]@);
        i += 1;
    }
    proof {
        if i < v@.len() {
            assert(v0[i as int] == v@[i as int]@);
            lemma_le_total(sv, v0[i as int]);
        }
        assert forall|k: int| i <= k < v0.len() implies text_le(sv, #[trigger] v0[k]) by {
            if k > i {
                lemma_le_trans(sv, v0[i as int], v0[k]);
            }
        }
    }
    v.insert(i, s);
    proof {
        let w = views(v@);
        assert(w =~= v0.insert(i as int, sv));
        assert forall|a: int, b: int| 0 <= a < b < w.len() implies text_le(
            #[trigger] w[a],
            #[trigger] w[b],
        ) by {
            if b < i {
                assert(w[a] == v0[a] && w[b] == v0[b]);
            } else if a > i {
                assert(w[a] == v0[a - 1] && w[b] == v0[b - 1]);
            } else if b == i {
                assert(w[a] == v0[a]);
            } else if a == i {
                assert(w[b] == v0[b - 1]);
            } else {
                assert(w[a] == v0[a] && w[b] == v0[b - 1]);
            }
        }
        vstd::seq_lib::to_multiset_insert(v0, i as int, sv);
    }
}

/// The texts in order.
pub fn sort_texts(v: Vec<String>) -> (r: Vec<String>)
    ensures
        texts_sorted(views(r@)),
        views(r@).to_multiset() == views(v@).to_multiset(),
{
    let ghost vv = views(v@);
    let mut from: Vec<String> = v;
    let mut r: Vec<String> = Vec::new();
    assert(views(r@) =~= seq![]);
    assert(vv.take(vv.len() as int) =~= vv);
    proof {
        views(r@).to_multiset_ensures();
        assert(views(r@).to_multiset() =~= Multiset::empty());
    }
    while from.len() > 0
        invariant
            texts_sorted(views(r@)),
            views(r@).to_multiset().add(views(from@).to_multiset()) == vv.to_multiset(),
        decreases from.len(),
    {
        let ghost f0 = views(from@);
        match from.pop() {
            Some(s) => {
                let ghost sv = s@;
                let ghost r0 = views(r@).to_multiset();
                insert_text(&mut r, s);
                proof {
                    let f1 = views(from@);
                    assert(f0 =~= f1.push(sv));
                    vstd::seq_lib::to_multiset_build(f1, sv);
                    assert(r0.insert(sv).add(f1.to_multiset()) =~= r0.add(
                        f1.to_multiset().insert(sv),
                    ));
                }
            },
            None => {},
        }
    }
    proof {
        assert(views(from@) =~= seq![]);
        views(from@).to_multiset_ensures();
        assert(views(from@).to_multiset() =~= Multiset::empty());
        assert(views(r@).to_multiset().add(Multiset::empty()) =~= views(r@).to_multiset());
    }
    r
}

} // verus!
