//! The textual shape of a target: `addr` or `addr/prefix`.
use vstd::prelude::*;
use vstd::string::*;

verus! {

pub open spec fn slash_free(t: Seq<char>) -> bool {
    forall|i: int| 0 <= i < t.len() ==> t[i] != '/'
}

/// The position of the first `/` of a text that holds one.
pub open spec fn first_slash(s: Seq<char>) -> int {
    choose|i: int| 0 <= i < s.len() && s[i] == '/' && slash_free(s.take(i))
}

/// A target text split at its `/`: the address text and, where a `/` stands,
/// the prefix text after it. A text with two or more `/` has no parts.
pub open spec fn target_text_parts(s: Seq<char>) -> Option<(Seq<char>, Option<Seq<char>>)> {
    if slash_free(s) {
        Some((s, None))
    } else {
        let i = first_slash(s);
        let rest = s.skip(i + 1);
        if slash_free(rest) {
            Some((s.take(i), Some(rest)))
        } else {
            None
        }
    }
}

pub open spec fn is_decimal_digit(c: char) -> bool {
    '0' <= c && c <= '9'
}

/// A non-empty run of decimal digits.
pub open spec fn is_decimal(t: Seq<char>) -> bool {
    t.len() > 0 && forall|i: int| 0 <= i < t.len() ==> is_decimal_digit(#[trigger] t[i])
}

pub open spec fn digits_value(t: Seq<char>) -> nat
    decreases t.len(),
{
    if t.len() == 0 {
        0
    } else {
        digits_value(t.drop_last()) * 10 + (t.last() as nat - '0' as nat) as nat
    }
}

/// The value of a decimal prefix text, where it is one and fits in a byte.
/// Any other text (a sign, a blank, no digit at all) is no prefix length.
pub open spec fn decimal_u8(t: Seq<char>) -> Option<u8> {
    if is_decimal(t) && digits_value(t) <= 255 {
        Some(digits_value(t) as u8)
    } else {
        None
    }
}

pub proof fn lemma_first_slash(s: Seq<char>, i: int)
    requires
        0 <= i < s.len(),
        s[i] == '/',
        slash_free(s.take(i)),
    ensures
        first_slash(s) == i,
{
    let j = first_slash(s);
    assert(0 <= j < s.len() && s[j] == '/' && slash_free(s.take(j)));
    if j < i {
        assert(s.take(i)[j] == '/');
    } else if j > i {
        assert(s.take(j)[i] == '/');
    }
}

/// Splits a target text at its `/`.
pub fn split_target(s: &str) -> (r: Option<(&str, Option<&str>)>)
    ensures
        r is None <==> target_text_parts(s@) is None,
        r matches Some((a, None)) ==> target_text_parts(s@) == Some((a@, None::<Seq<char>>)),
        r matches Some((a, Some(t))) ==> target_text_parts(s@) == Some((a@, Some(t@))),
{
    let n = s.unicode_len();
    let mut i: usize = 0;
    while i < n && s.get_char(i) != '/'
        invariant
            n == s@.len(),
            i <= n,
            slash_free(s@.take(i as int)),
        decreases n - i,
    {
        assert(s@.take(i as int + 1) =~= s@.take(i as int).push(s@[i as int]));
        i = i + 1;
    }
    if i == n {
        assert(s@.take(n as int) =~= s@);
        return Some((s, None));
    }
    proof {
        lemma_first_slash(s@, i as int);
    }
    let mut j: usize = i + 1;
    while j < n && s.get_char(j) != '/'
        invariant
            n == s@.len(),
            i < j <= n,
            forall|k: int| i < k < j ==> #[trigger] s@[k] != '/',
        decreases n - j,
    {
        j = j + 1;
    }
    if j < n {
        proof {
            lemma_skip_index(s@, i as int + 1, j as int);
            assert(!slash_free(s@));
        }
        return None;
    }
    let a = s.substring_char(0, i);
    let t = s.substring_char(i + 1, n);
    assert(a@ =~= s@.take(i as int));
    assert(t@ =~= s@.skip(i as int + 1));
    assert forall|k: int| 0 <= k < t@.len() implies t@[k] != '/' by {
        assert(t@[k] == s@[i + 1 + k]);
    }
    Some((a, Some(t)))
}

proof fn lemma_skip_index(s: Seq<char>, from: int, j: int)
    requires
        0 <= from <= j < s.len(),
        s[j] == '/',
    ensures
        !slash_free(s.skip(from)),
{
    assert(s.skip(from)[j - from] == s[j]);
}

/// Reads a prefix length written in decimal.
pub fn parse_decimal_u8(t: &str) -> (r: Option<u8>)
    ensures
        r == decimal_u8(t@),
{
    let n = t.unicode_len();
    if n == 0 {
        return None;
    }
    let mut value: u32 = 0;
    let mut i: usize = 0;
    while i < n
        invariant
            n == t@.len(),
            i <= n,
            value <= 255,
            forall|k: int| 0 <= k < i ==> is_decimal_digit(#[trigger] t@[k]),
            value == digits_value(t@.take(i as int)),
        decreases n - i,
    {
        let c = t.get_char(i);
        assert(t@.take(i as int + 1).drop_last() =~= t@.take(i as int));
        if !('0' <= c && c <= '9') {
            assert(!is_decimal_digit(t@[i as int]));
            return None;
        }
        let next: u32 = value * 10 + (c as u32 - '0' as u32);
        if next > 255 {
            proof {
                lemma_digits_value_prefix_bound(t@, i as int + 1);
            }
            return None;
        }
        value = next;
        i = i + 1;
    }
    assert(t@.take(n as int) =~= t@);
    assert(is_decimal(t@));
    Some(value as u8)
}

pub proof fn lemma_digits_value_prefix_bound(t: Seq<char>, k: int)
    requires
        0 < k <= t.len(),
        forall|i: int| 0 <= i < k ==> is_decimal_digit(#[trigger] t[i]),
    ensures
        is_decimal(t) ==> digits_value(t) >= digits_value(t.take(k)),
    decreases t.len(),
{
    if is_decimal(t) && k < t.len() {
        assert(t.drop_last().take(k) =~= t.take(k));
        lemma_digits_value_prefix_bound(t.drop_last(), k);
    } else if k == t.len() {
        assert(t.take(k) =~= t);
    }
}

pub open spec fn digit_char(d: nat) -> char {
    if d == 0 { '0' }
    else if d == 1 { '1' }
    else if d == 2 { '2' }
    else if d == 3 { '3' }
    else if d == 4 { '4' }
    else if d == 5 { '5' }
    else if d == 6 { '6' }
    else if d == 7 { '7' }
    else if d == 8 { '8' }
    else { '9' }
}

/// `n` in decimal, without leading zeros.
pub open spec fn decimal_text(n: nat) -> Seq<char>
    decreases n,
{
    if n < 10 {
        seq![digit_char(n)]
    } else {
        decimal_text(n / 10) + seq![digit_char(n % 10)]
    }
}

fn digit_str(d: u8) -> (r: &'static str)
    requires
        d < 10,
    ensures
        r@ == seq![digit_char(d as nat)],
{
    proof {
        reveal_strlit("0");
        reveal_strlit("1");
        reveal_strlit("2");
        reveal_strlit("3");
        reveal_strlit("4");
        reveal_strlit("5");
        reveal_strlit("6");
        reveal_strlit("7");
        reveal_strlit("8");
        reveal_strlit("9");
    }
    let r = if d == 0 { "0" }
    else if d == 1 { "1" }
    else if d == 2 { "2" }
    else if d == 3 { "3" }
    else if d == 4 { "4" }
    else if d == 5 { "5" }
    else if d == 6 { "6" }
    else if d == 7 { "7" }
    else if d == 8 { "8" }
    else { "9" };
    assert(r@ =~= seq![digit_char(d as nat)]);
    r
}

/// Appends `n` in decimal to `out`.
pub fn push_decimal_u8(out: &mut String, n: u8)
    ensures
        final(out)@ == old(out)@ + decimal_text(n as nat),
{
    let ghost start = out@;
    proof {
        reveal_with_fuel(decimal_text, 3);
    }
    if n >= 100 {
        out.append(digit_str(n / 100));
        out.append(digit_str((n / 10) % 10));
        out.append(digit_str(n % 10));
        assert(out@ =~= start + decimal_text(n as nat));
    } else if n >= 10 {
        out.append(digit_str(n / 10));
        out.append(digit_str(n % 10));
        assert(out@ =~= start + decimal_text(n as nat));
    } else {
        out.append(digit_str(n % 10));
        assert(out@ =~= start + decimal_text(n as nat));
    }
}

proof fn lemma_digit_char(d: nat)
    requires
        d < 10,
    ensures
        is_decimal_digit(digit_char(d)),
        digit_char(d) as nat - '0' as nat == d,
        (digit_char(d) == '0') == (d == 0),
{
}

/// The decimal text of a number is a run of digits whose value is that
/// number, with no leading zero.
pub proof fn lemma_decimal_text(n: nat)
    ensures
        is_decimal(decimal_text(n)),
        digits_value(decimal_text(n)) == n,
        decimal_text(n)[0] == '0' ==> n == 0,
        n < 10 ==> decimal_text(n).len() == 1,
        10 <= n < 100 ==> decimal_text(n).len() == 2,
        100 <= n < 1000 ==> decimal_text(n).len() == 3,
    decreases n,
{
    let t = decimal_text(n);
    if n < 10 {
        lemma_digit_char(n);
        assert(t.drop_last() =~= Seq::<char>::empty());
        assert(digits_value(Seq::<char>::empty()) == 0);
        assert(digits_value(t) == digits_value(t.drop_last()) * 10 + (t.last() as nat - '0' as nat) as nat);
    } else {
        lemma_decimal_text(n / 10);
        lemma_digit_char(n % 10);
        let p = decimal_text(n / 10);
        assert(t.drop_last() =~= p);
        assert(t[0] == p[0]);
        assert forall|i: int| 0 <= i < t.len() implies is_decimal_digit(#[trigger] t[i]) by {
            if i < p.len() {
                assert(t[i] == p[i]);
            }
        }
        assert(t.last() == digit_char(n % 10));
        assert(digits_value(t) == digits_value(p) * 10 + (t.last() as nat - '0' as nat) as nat);
        assert((n / 10) * 10 + n % 10 == n);
    }
}

/// A run of digits with no leading zero is the decimal text of its value.
pub proof fn lemma_canonical_decimal(f: Seq<char>)
    requires
        is_decimal(f),
        f.len() > 1 ==> f[0] != '0',
    ensures
        f == decimal_text(digits_value(f)),
    decreases f.len(),
{
    let c = f.last();
    let d = (c as nat - '0' as nat) as nat;
    assert(is_decimal_digit(f[f.len() - 1]));
    if f.len() == 1 {
        assert(f.drop_last() =~= Seq::<char>::empty());
        assert(digits_value(Seq::<char>::empty()) == 0);
        assert(digits_value(f) == digits_value(f.drop_last()) * 10 + d);
        assert(digits_value(f) == d);
        assert(f =~= seq![digit_char(d)]);
    } else {
        let g = f.drop_last();
        assert(g[0] == f[0]);
        assert forall|i: int| 0 <= i < g.len() implies is_decimal_digit(#[trigger] g[i]) by {
            assert(g[i] == f[i]);
        }
        lemma_canonical_decimal(g);
        lemma_value_positive(g);
        let v = digits_value(f);
        assert(v == digits_value(g) * 10 + d);
        assert(v / 10 == digits_value(g) && v % 10 == d);
        assert(decimal_text(v) == decimal_text(v / 10) + seq![digit_char(v % 10)]);
        assert(f =~= g + seq![digit_char(d)]);
    }
}

proof fn lemma_value_positive(g: Seq<char>)
    requires
        is_decimal(g),
        g[0] != '0',
    ensures
        digits_value(g) >= 1,
    decreases g.len(),
{
    if g.len() > 1 {
        let h = g.drop_last();
        assert(h[0] == g[0]);
        assert forall|i: int| 0 <= i < h.len() implies is_decimal_digit(#[trigger] h[i]) by {
            assert(h[i] == g[i]);
        }
        lemma_value_positive(h);
    } else {
        assert(g.drop_last() =~= Seq::<char>::empty());
        assert(is_decimal_digit(g[0]));
    }
}

} // verus!
