//! Character-level helpers shared by the header, line and date grammars.
use vstd::prelude::*;

verus! {

/// Relies on `String::push`: it appends the character to the end.
pub assume_specification[ std::string::String::push ](
    string: &mut std::string::String,
    ch: char,
)
    ensures
        final(string)@ == old(string)@.push(ch),
;

/// The characters of `s`, in order.
pub fn chars_of(s: &str) -> (r: Vec<char>)
    ensures
        r@ == s@,
{
    let mut r: Vec<char> = Vec::new();
    for c in it: s.chars()
        invariant
            r@ == it.seq().take(it.index() as int),
            it.seq() == s@,
    {
        r.push(c);
    }
    r
}

/// The pieces of `s` between separators, where a separator is `a` or `b`;
/// `n` separators give `n + 1` pieces, possibly empty.
pub open spec fn split(s: Seq<char>, a: char, b: char) -> Seq<Seq<char>>
    decreases s.len(),
{
    if s.len() == 0 {
        seq![Seq::empty()]
    } else {
        let init = split(s.drop_last(), a, b);
        let c = s.last();
        if c == a || c == b {
            init.push(Seq::empty())
        } else {
            init.update(init.len() - 1, init.last().push(c))
        }
    }
}

pub proof fn lemma_split_nonempty(s: Seq<char>, a: char, b: char)
    ensures
        split(s, a, b).len() >= 1,
    decreases s.len(),
{
    if s.len() > 0 {
        lemma_split_nonempty(s.drop_last(), a, b);
    }
}

/// Without a separator, a split gives back the whole.
pub proof fn lemma_split_none(s: Seq<char>, a: char, b: char)
    requires
        !s.contains(a),
        !s.contains(b),
    ensures
        split(s, a, b) == seq![s],
    decreases s.len(),
{
    if s.len() > 0 {
        assert(!s.drop_last().contains(a)) by {
            if s.drop_last().contains(a) {
                let i = choose|i: int| 0 <= i < s.drop_last().len() && s.drop_last()[i] == a;
                assert(s[i] == a);
            }
        }
        assert(!s.drop_last().contains(b)) by {
            if s.drop_last().contains(b) {
                let i = choose|i: int| 0 <= i < s.drop_last().len() && s.drop_last()[i] == b;
                assert(s[i] == b);
            }
        }
        lemma_split_none(s.drop_last(), a, b);
        assert(s.last() == s[s.len() - 1]);
        assert(s.drop_last().push(s.last()) =~= s);
        assert(seq![s.drop_last()].update(0, s.drop_last().push(s.last())) =~= seq![s]);
    } else {
        assert(s =~= Seq::<char>::empty());
    }
}

/// The views of a vector of character vectors.
pub open spec fn views(v: Seq<Vec<char>>) -> Seq<Seq<char>> {
    v.map_values(|p: Vec<char>| p@)
}

/// Splits `s` at every `a` and every `b`.
pub fn split_on(s: &[char], a: char, b: char) -> (r: Vec<Vec<char>>)
    ensures
        views(r@) == split(s@, a, b),
{
    let mut parts: Vec<Vec<char>> = Vec::new();
    let mut cur: Vec<char> = Vec::new();
    let mut i: usize = 0;
    proof {
        assert(s@.take(0) =~= Seq::<char>::empty());
        assert(views(parts@).push(cur@) =~= split(s@.take(0), a, b));
    }
    while i < s.len()
        invariant
            i <= s@.len(),
            views(parts@).push(cur@) == split(s@.take(i as int), a, b),
        decreases s.len() - i,
    {
        let c = s[i];
        proof {
            assert(s@.take(i + 1).drop_last() =~= s@.take(i as int));
        }
        if c == a || c == b {
            parts.push(cur);
            cur = Vec::new();
            proof {
                assert(views(parts@).push(cur@) =~= split(s@.take(i + 1), a, b));
            }
        } else {
            cur.push(c);
            proof {
                assert(views(parts@).push(cur@) =~= split(s@.take(i + 1), a, b));
            }
        }
        i = i + 1;
    }
    proof {
        assert(s@.take(s@.len() as int) =~= s@);
    }
    parts.push(cur);
    proof {
        assert(views(parts@) =~= split(s@, a, b));
    }
    parts
}

/// Whether `a` and `b` hold the same characters.
pub fn same_chars(a: &[char], b: &[char]) -> (r: bool)
    ensures
        r == (a@ == b@),
{
    if a.len() != b.len() {
        return false;
    }
    let mut i: usize = 0;
    while i < a.len()
        invariant
            a@.len() == b@.len(),
            i <= a@.len(),
            forall|j: int| 0 <= j < i ==> a@[j] == b@[j],
        decreases a.len() - i,
    {
        if a[i] != b[i] {
            return false;
        }
        i = i + 1;
    }
    proof {
        assert(a@ =~= b@);
    }
    true
}

/// Whether `c` occurs in `s`.
pub fn has_char(s: &[char], c: char) -> (r: bool)
    ensures
        r == s@.contains(c),
{
    let mut i: usize = 0;
    while i < s.len()
        invariant
            i <= s@.len(),
            forall|j: int| 0 <= j < i ==> s@[j] != c,
        decreases s.len() - i,
    {
        if s[i] == c {
            return true;
        }
        i = i + 1;
    }
    false
}

/// `s` without its leading run of `c`.
pub open spec fn strip_leading(s: Seq<char>, c: char) -> Seq<char>
    decreases s.len(),
{
    if s.len() > 0 && s[0] == c {
        strip_leading(s.drop_first(), c)
    } else {
        s
    }
}

/// `s` without its trailing run of `c`.
pub open spec fn strip_trailing(s: Seq<char>, c: char) -> Seq<char>
    decreases s.len(),
{
    if s.len() > 0 && s.last() == c {
        strip_trailing(s.drop_last(), c)
    } else {
        s
    }
}

/// `s` without its leading `(` and its trailing `)`.
pub open spec fn strip_parens(s: Seq<char>) -> Seq<char> {
    strip_trailing(strip_leading(s, '('), ')')
}

proof fn lemma_strip_leading_from(s: Seq<char>, c: char, i: int)
    requires
        0 <= i <= s.len(),
        forall|j: int| 0 <= j < i ==> s[j] == c,
    ensures
        strip_leading(s, c) == strip_leading(s.subrange(i, s.len() as int), c),
    decreases i,
{
    if i > 0 {
        lemma_strip_leading_from(s.drop_first(), c, i - 1);
        assert(s.drop_first().subrange(i - 1, s.drop_first().len() as int) =~= s.subrange(
            i,
            s.len() as int,
        ));
    } else {
        assert(s.subrange(0, s.len() as int) =~= s);
    }
}

proof fn lemma_strip_trailing_to(s: Seq<char>, c: char, k: int)
    requires
        0 <= k <= s.len(),
        forall|j: int| k <= j < s.len() ==> s[j] == c,
    ensures
        strip_trailing(s, c) == strip_trailing(s.subrange(0, k), c),
    decreases s.len() - k,
{
    if k < s.len() {
        lemma_strip_trailing_to(s.drop_last(), c, k);
        assert(s.drop_last().subrange(0, k) =~= s.subrange(0, k));
    } else {
        assert(s.subrange(0, k) =~= s);
    }
}

/// `s` without its leading `(` and its trailing `)`.
pub fn strip_parens_of(s: &[char]) -> (r: Vec<char>)
    ensures
        r@ == strip_parens(s@),
{
    let mut i: usize = 0;
    while i < s.len() && s[i] == '('
        invariant
            i <= s@.len(),
            forall|j: int| 0 <= j < i ==> s@[j] == '(',
        decreases s.len() - i,
    {
        i = i + 1;
    }
    let ghost rest = s@.subrange(i as int, s@.len() as int);
    proof {
        lemma_strip_leading_from(s@, '(', i as int);
        assert(strip_leading(rest, '(') == rest);
    }
    let mut k: usize = s.len();
    while k > i && s[k - 1] == ')'
        invariant
            i <= k <= s@.len(),
            forall|j: int| k <= j < s@.len() ==> s@[j] == ')',
        decreases k,
    {
        k = k - 1;
    }
    proof {
        lemma_strip_trailing_to(rest, ')', k - i);
        assert(rest.subrange(0, k - i) =~= s@.subrange(i as int, k as int));
    }
    let mut r: Vec<char> = Vec::new();
    let mut j: usize = i;
    while j < k
        invariant
            i <= j <= k <= s@.len(),
            r@ == s@.subrange(i as int, j as int),
        decreases k - j,
    {
        r.push(s[j]);
        proof {
            assert(r@ =~= s@.subrange(i as int, j + 1));
        }
        j = j + 1;
    }
    r
}

/// Whether `c` is an ASCII decimal digit.
pub open spec fn is_digit(c: char) -> bool {
    '0' <= c && c <= '9'
}

/// The value of the decimal digit `c`.
pub open spec fn digit_value(c: char) -> int {
    c as int - '0' as int
}

/// Whether every character of `s` is a decimal digit.
pub open spec fn all_digits(s: Seq<char>) -> bool {
    forall|i: int| 0 <= i < s.len() ==> is_digit(#[trigger] s[i])
}

/// The value of the decimal digits `s`, most significant first.
pub open spec fn digits_value(s: Seq<char>) -> int
    decreases s.len(),
{
    if s.len() == 0 {
        0
    } else {
        digits_value(s.drop_last()) * 10 + digit_value(s.last())
    }
}

/// `10` to the power `n`.
pub open spec fn pow10(n: nat) -> int
    decreases n,
{
    if n == 0 {
        1
    } else {
        10 * pow10((n - 1) as nat)
    }
}

/// An unsigned integer as std's `str::parse` reads one, before the bound of
/// the target type: an optional `+`, then one or more decimal digits.
pub open spec fn unsigned_text(s: Seq<char>) -> Option<int> {
    let body = if s.len() > 0 && s[0] == '+' {
        s.drop_first()
    } else {
        s
    };
    if body.len() > 0 && all_digits(body) {
        Some(digits_value(body))
    } else {
        None
    }
}

/// The value of `s` read as an unsigned integer no larger than `max`.
pub open spec fn unsigned_upto(s: Seq<char>, max: int) -> Option<int> {
    match unsigned_text(s) {
        Some(v) => if v <= max {
            Some(v)
        } else {
            None
        },
        None => None,
    }
}

pub proof fn lemma_digits_value_nonneg(s: Seq<char>)
    requires
        all_digits(s),
    ensures
        0 <= digits_value(s) < pow10(s.len()),
    decreases s.len(),
{
    if s.len() > 0 {
        assert(all_digits(s.drop_last())) by {
            assert forall|i: int| 0 <= i < s.drop_last().len() implies is_digit(
                #[trigger] s.drop_last()[i],
            ) by {
                assert(s.drop_last()[i] == s[i]);
            }
        }
        lemma_digits_value_nonneg(s.drop_last());
        assert(is_digit(s[s.len() - 1]));
    }
}

/// Reads `s` as an unsigned integer no larger than `max`.
pub fn parse_unsigned(s: &[char], max: u64) -> (r: Option<u64>)
    requires
        max <= u32::MAX,
    ensures
        r matches Some(v) ==> unsigned_upto(s@, max as int) == Some(v as int),
        r is None ==> unsigned_upto(s@, max as int) is None,
{
    let start: usize = if s.len() > 0 && s[0] == '+' {
        1
    } else {
        0
    };
    let ghost body = if s@.len() > 0 && s@[0] == '+' {
        s@.drop_first()
    } else {
        s@
    };
    proof {
        assert(body =~= s@.subrange(start as int, s@.len() as int));
    }
    if start == s.len() {
        return None;
    }
    let mut val: u64 = 0;
    let mut j: usize = start;
    proof {
        assert(s@.subrange(start as int, start as int) =~= Seq::<char>::empty());
    }
    while j < s.len()
        invariant
            start <= j <= s@.len(),
            max <= u32::MAX,
            body == s@.subrange(start as int, s@.len() as int),
            body == (if s@.len() > 0 && s@[0] == '+' {
                s@.drop_first()
            } else {
                s@
            }),
            all_digits(s@.subrange(start as int, j as int)),
            val as int == if digits_value(s@.subrange(start as int, j as int)) <= max {
                digits_value(s@.subrange(start as int, j as int))
            } else {
                max + 1
            },
        decreases s.len() - j,
    {
        let c = s[j];
        let ghost prev = s@.subrange(start as int, j as int);
        let ghost next = s@.subrange(start as int, j + 1);
        proof {
            assert(next.drop_last() =~= prev);
            assert(next.last() == c);
        }
        if !('0' <= c && c <= '9') {
            proof {
                assert(body == s@.subrange(start as int, s@.len() as int));
                assert(body[j - start] == s@[j as int]);
                assert(!is_digit(body[j - start]));
            }
            return None;
        }
        let d = (c as u32 - '0' as u32) as u64;
        proof {
            assert(all_digits(next)) by {
                assert forall|i: int| 0 <= i < next.len() implies is_digit(#[trigger] next[i]) by {
                    if i < prev.len() {
                        assert(next[i] == prev[i]);
                    }
                }
            }
            lemma_digits_value_nonneg(prev);
        }
        if val > max {
            proof {
                assert(digits_value(next) > max);
            }
        } else {
            let n = val * 10 + d;
            if n > max {
                val = max + 1;
            } else {
                val = n;
            }
        }
        j = j + 1;
    }
    proof {
        assert(s@.subrange(start as int, s@.len() as int) == body);
    }
    if val > max {
        None
    } else {
        Some(val)
    }
}

/// Readings are held as whole numbers of this many parts of their unit.
pub const SCALE: i128 = 10_000_000_000;

/// A decimal reading: an optional sign, at least one digit, at most one
/// decimal point and at most ten digits after it. Its value is in units of
/// `1 / SCALE`, which holds every such reading exactly.
pub open spec fn decimal_value(s: Seq<char>) -> Option<int> {
    let signed = s.len() > 0 && (s[0] == '+' || s[0] == '-');
    let body = if signed {
        s.drop_first()
    } else {
        s
    };
    let parts = split(body, '.', '.');
    let whole = parts[0];
    let frac = if parts.len() == 2 {
        parts[1]
    } else {
        Seq::empty()
    };
    if parts.len() <= 2 && all_digits(whole) && all_digits(frac) && whole.len() + frac.len() > 0
        && frac.len() <= 10 {
        let mag = digits_value(whole) * SCALE + digits_value(frac) * pow10(
            (10 - frac.len()) as nat,
        );
        Some(
            if s[0] == '-' {
                -mag
            } else {
                mag
            },
        )
    } else {
        None
    }
}

/// The value of the digits `s`.
fn digits_number(s: &[char]) -> (r: i128)
    requires
        all_digits(s@),
        s@.len() <= 20,
    ensures
        r == digits_value(s@),
        0 <= r < pow10(s@.len()),
{
    let mut r: i128 = 0;
    let mut j: usize = 0;
    proof {
        assert(s@.take(0) =~= Seq::<char>::empty());
        lemma_pow10_bound(20);
    }
    while j < s.len()
        invariant
            j <= s@.len(),
            s@.len() <= 20,
            all_digits(s@),
            r == digits_value(s@.take(j as int)),
            0 <= r < pow10(j as nat),
            pow10(20) <= 100_000_000_000_000_000_000,
        decreases s.len() - j,
    {
        let c = s[j];
        proof {
            assert(s@.take(j + 1).drop_last() =~= s@.take(j as int));
            assert(is_digit(s@[j as int]));
            lemma_pow10_mono(j as nat + 1, 20);
        }
        r = r * 10 + (c as u32 - '0' as u32) as i128;
        j = j + 1;
    }
    proof {
        assert(s@.take(s@.len() as int) =~= s@);
    }
    r
}

pub proof fn lemma_pow10_bound(n: nat)
    ensures
        pow10(n) >= 1,
        n == 10 ==> pow10(n) == 10_000_000_000,
        n == 20 ==> pow10(n) == 100_000_000_000_000_000_000,
    decreases n,
{
    reveal_with_fuel(pow10, 21);
    if n > 0 {
        lemma_pow10_bound((n - 1) as nat);
    }
}

pub proof fn lemma_pow10_mono(a: nat, b: nat)
    requires
        a <= b,
    ensures
        1 <= pow10(a) <= pow10(b),
    decreases b,
{
    lemma_pow10_bound(b);
    if a < b {
        lemma_pow10_mono(a, (b - 1) as nat);
    }
}

/// Reads the decimal reading `s`.
pub fn parse_decimal(s: &[char]) -> (r: Option<i128>)
    requires
        s@.len() <= 20,
    ensures
        r matches Some(v) ==> decimal_value(s@) == Some(v as int),
        r is None ==> decimal_value(s@) is None,
{
    let signed = s.len() > 0 && (s[0] == '+' || s[0] == '-');
    let mut body: Vec<char> = Vec::new();
    let mut i: usize = if signed {
        1
    } else {
        0
    };
    let start = i;
    while i < s.len()
        invariant
            start <= i <= s@.len(),
            body@ == s@.subrange(start as int, i as int),
        decreases s.len() - i,
    {
        body.push(s[i]);
        proof {
            assert(body@ =~= s@.subrange(start as int, i + 1));
        }
        i = i + 1;
    }
    proof {
        if signed {
            assert(body@ =~= s@.drop_first());
        } else {
            assert(body@ =~= s@);
        }
    }
    let parts = split_on(body.as_slice(), '.', '.');
    proof {
        lemma_split_nonempty(body@, '.', '.');
        assert(parts@.len() == views(parts@).len());
    }
    if parts.len() > 2 {
        return None;
    }
    let whole = &parts[0];
    let empty: Vec<char> = Vec::new();
    let frac = if parts.len() == 2 {
        &parts[1]
    } else {
        &empty
    };
    proof {
        assert(views(parts@)[0] == whole@);
        if parts.len() == 2 {
            assert(views(parts@)[1] == frac@);
        }
        assert(frac@ =~= if views(parts@).len() == 2 {
            views(parts@)[1]
        } else {
            Seq::<char>::empty()
        });
    }
    if (whole.len() == 0 && frac.len() == 0) || frac.len() > 10 {
        return None;
    }
    if !all_digits_of(whole.as_slice()) || !all_digits_of(frac.as_slice()) {
        return None;
    }
    proof {
        lemma_split_lengths(body@, '.', '.');
        assert(whole@.len() <= 20);
        lemma_pow10_bound(10);
        lemma_pow10_mono((10 - frac@.len()) as nat, 10);
    }
    let w = digits_number(whole.as_slice());
    let f = digits_number(frac.as_slice());
    let mut unit: i128 = 1;
    let mut k: usize = frac.len();
    proof {
        lemma_pow10_mono(frac@.len() as nat, 10);
    }
    while k < 10
        invariant
            frac@.len() <= k <= 10,
            unit == pow10((k - frac@.len()) as nat),
            unit <= pow10((10 - frac@.len()) as nat),
            pow10((10 - frac@.len()) as nat) <= 10_000_000_000,
        decreases 10 - k,
    {
        proof {
            lemma_pow10_mono((k + 1 - frac@.len()) as nat, (10 - frac@.len()) as nat);
        }
        unit = unit * 10;
        k = k + 1;
    }
    proof {
        lemma_pow10_mono(whole@.len() as nat, 20);
        lemma_pow10_bound(20);
        lemma_pow10_mono(frac@.len() as nat, 10);
        assert(w * SCALE <= 100_000_000_000_000_000_000 * 10_000_000_000) by (nonlinear_arith)
            requires
                0 <= w < 100_000_000_000_000_000_000,
        ;
        assert(0 <= f * unit <= 10_000_000_000 * 10_000_000_000) by (nonlinear_arith)
            requires
                0 <= f < 10_000_000_000,
                0 <= unit <= 10_000_000_000,
        ;
    }
    let mag = w * SCALE + f * unit;
    if s[0] == '-' {
        Some(-mag)
    } else {
        Some(mag)
    }
}

/// Whether every character of `s` is a decimal digit.
pub fn all_digits_of(s: &[char]) -> (r: bool)
    ensures
        r == all_digits(s@),
{
    let mut i: usize = 0;
    while i < s.len()
        invariant
            i <= s@.len(),
            forall|j: int| 0 <= j < i ==> is_digit(#[trigger] s@[j]),
        decreases s.len() - i,
    {
        let c = s[i];
        if !('0' <= c && c <= '9') {
            return false;
        }
        i = i + 1;
    }
    true
}

/// The pieces of a split are never longer than what was split.
pub proof fn lemma_split_lengths(s: Seq<char>, a: char, b: char)
    ensures
        forall|i: int| 0 <= i < split(s, a, b).len() ==> #[trigger] split(s, a, b)[i].len() <= s.len(),
    decreases s.len(),
{
    if s.len() > 0 {
        lemma_split_lengths(s.drop_last(), a, b);
        lemma_split_nonempty(s.drop_last(), a, b);
    }
}

/// Whether `c` has the Unicode `White_Space` property.
pub open spec fn is_white(c: char) -> bool {
    let n = c as u32;
    (0x9 <= n && n <= 0xd) || n == 0x20 || n == 0x85 || n == 0xa0 || n == 0x1680 || (0x2000 <= n
        && n <= 0x200a) || n == 0x2028 || n == 0x2029 || n == 0x202f || n == 0x205f || n == 0x3000
}

/// Whether `s` holds nothing but white space.
pub open spec fn is_blank(s: Seq<char>) -> bool {
    forall|i: int| 0 <= i < s.len() ==> is_white(#[trigger] s[i])
}

/// Whether `s` holds nothing but white space.
pub fn blank(s: &[char]) -> (r: bool)
    ensures
        r == is_blank(s@),
{
    let mut i: usize = 0;
    while i < s.len()
        invariant
            i <= s@.len(),
            forall|j: int| 0 <= j < i ==> is_white(#[trigger] s@[j]),
        decreases s.len() - i,
    {
        let n = s[i] as u32;
        let white = (0x9 <= n && n <= 0xd) || n == 0x20 || n == 0x85 || n == 0xa0 || n == 0x1680
            || (0x2000 <= n && n <= 0x200a) || n == 0x2028 || n == 0x2029 || n == 0x202f || n
            == 0x205f || n == 0x3000;
        if !white {
            return false;
        }
        i = i + 1;
    }
    true
}

/// `l` without one trailing carriage return.
pub open spec fn strip_cr(l: Seq<char>) -> Seq<char> {
    if l.len() > 0 && l.last() == '\r' {
        l.drop_last()
    } else {
        l
    }
}

/// The lines of `s`: the pieces between line feeds, each line that a line
/// feed ends without one trailing carriage return, and no final empty line.
pub open spec fn lines_of(s: Seq<char>) -> Seq<Seq<char>> {
    let pieces = split(s, '\n', '\n');
    let n = pieces.len();
    let kept = if pieces.last().len() == 0 {
        n - 1
    } else {
        n as int
    };
    Seq::new(
        kept as nat,
        |i: int|
            if i < n - 1 {
                strip_cr(pieces[i])
            } else {
                pieces[i]
            },
    )
}

/// The lines of `s`.
pub fn lines_from(s: &[char]) -> (r: Vec<Vec<char>>)
    ensures
        views(r@) == lines_of(s@),
{
    let mut pieces = split_on(s, '\n', '\n');
    proof {
        lemma_split_nonempty(s@, '\n', '\n');
        assert(pieces@.len() == views(pieces@).len());
    }
    let ghost all = views(pieces@);
    let n = pieces.len();
    let kept = if pieces[n - 1].len() == 0 {
        n - 1
    } else {
        n
    };
    proof {
        assert(all.last() == pieces@[n - 1]@);
    }
    let mut r: Vec<Vec<char>> = Vec::new();
    let mut i: usize = 0;
    while i < kept
        invariant
            kept <= n,
            n == pieces@.len(),
            all == views(pieces@),
            all == split(s@, '\n', '\n'),
            i <= kept,
            views(r@) == lines_of(s@).take(i as int),
            lines_of(s@).len() == kept,
        decreases kept - i,
    {
        let mut piece: Vec<char> = Vec::new();
        let p = &pieces[i];
        let mut j: usize = 0;
        let cut = if i + 1 < n && p.len() > 0 && p[p.len() - 1] == '\r' {
            p.len() - 1
        } else {
            p.len()
        };
        proof {
            assert(all[i as int] == p@);
        }
        while j < cut
            invariant
                cut <= p@.len(),
                j <= cut,
                piece@ == p@.take(j as int),
            decreases cut - j,
        {
            piece.push(p[j]);
            proof {
                assert(piece@ =~= p@.take(j + 1));
            }
            j = j + 1;
        }
        proof {
            if cut == p@.len() {
                assert(piece@ =~= p@);
            } else {
                assert(piece@ =~= p@.drop_last());
            }
        }
        proof {
            assert(lines_of(s@)[i as int] == (if i < n - 1 {
                strip_cr(all[i as int])
            } else {
                all[i as int]
            }));
            assert(lines_of(s@)[i as int] == piece@);
        }
        let ghost old_r = r@;
        r.push(piece);
        proof {
            assert(views(r@) =~= views(old_r).push(piece@));
            assert(views(r@) =~= lines_of(s@).take(i + 1));
        }
        i = i + 1;
    }
    proof {
        assert(lines_of(s@).take(kept as int) =~= lines_of(s@));
    }
    r
}

/// Every piece of a split is shorter than what was split by one character
/// per separator.
pub proof fn lemma_split_piece_len(s: Seq<char>, a: char, b: char)
    ensures
        forall|i: int|
            0 <= i < split(s, a, b).len() ==> #[trigger] split(s, a, b)[i].len() + split(s, a, b).len()
                - 1 <= s.len(),
    decreases s.len(),
{
    if s.len() > 0 {
        lemma_split_piece_len(s.drop_last(), a, b);
        lemma_split_nonempty(s.drop_last(), a, b);
        let init = split(s.drop_last(), a, b);
        assert(init[0].len() + init.len() - 1 <= s.len() - 1);
        assert forall|i: int|
            0 <= i < split(s, a, b).len() implies #[trigger] split(s, a, b)[i].len() + split(
                s,
                a,
                b,
            ).len() - 1 <= s.len() by {
            if i < init.len() {
                assert(init[i].len() + init.len() - 1 <= s.len() - 1);
            }
        }
    }
}

/// A separator in `s` splits it in at least two pieces.
pub proof fn lemma_split_some(s: Seq<char>, a: char, b: char)
    requires
        s.contains(a),
    ensures
        split(s, a, b).len() >= 2,
    decreases s.len(),
{
    lemma_split_nonempty(s.drop_last(), a, b);
    if s.last() != a && s.last() != b {
        let i = choose|i: int| 0 <= i < s.len() && s[i] == a;
        assert(i < s.len() - 1);
        assert(s.drop_last()[i] == a);
        lemma_split_some(s.drop_last(), a, b);
    }
}

/// A reading with at most ten digits before its point stays below
/// `10^20` units.
pub proof fn lemma_decimal_bound(s: Seq<char>)
    requires
        decimal_value(s) is Some,
        split(
            if s.len() > 0 && (s[0] == '+' || s[0] == '-') {
                s.drop_first()
            } else {
                s
            },
            '.',
            '.',
        )[0].len() <= 10,
    ensures
        -100_000_000_000_000_000_000 < decimal_value(s)->0 < 100_000_000_000_000_000_000,
{
    let body = if s.len() > 0 && (s[0] == '+' || s[0] == '-') {
        s.drop_first()
    } else {
        s
    };
    let parts = split(body, '.', '.');
    let whole = parts[0];
    let frac = if parts.len() == 2 {
        parts[1]
    } else {
        Seq::empty()
    };
    lemma_digits_value_nonneg(whole);
    lemma_digits_value_nonneg(frac);
    lemma_pow10_mono(whole.len(), 10);
    lemma_pow10_bound(10);
    lemma_pow10_bound(20);
    let k = (10 - frac.len()) as nat;
    lemma_pow10_mul(frac.len(), k);
    let w = digits_value(whole);
    let f = digits_value(frac);
    let u = pow10(k);
    lemma_pow10_bound(k);
    assert(w * SCALE <= (10_000_000_000 - 1) * 10_000_000_000) by (nonlinear_arith)
        requires
            0 <= w < 10_000_000_000,
    ;
    assert(f * u < 10_000_000_000) by (nonlinear_arith)
        requires
            0 <= f < pow10(frac.len()),
            pow10(frac.len()) * u == 10_000_000_000,
            u >= 1,
    ;
    assert(0 <= f * u) by (nonlinear_arith)
        requires
            0 <= f,
            u >= 1,
    ;
}

pub proof fn lemma_pow10_mul(a: nat, b: nat)
    ensures
        pow10(a) * pow10(b) == pow10(a + b),
    decreases a,
{
    if a > 0 {
        lemma_pow10_mul((a - 1) as nat, b);
        assert(pow10(a) == 10 * pow10((a - 1) as nat));
        assert(pow10(a + b) == 10 * pow10((a - 1 + b) as nat));
        assert(pow10(a) * pow10(b) == 10 * (pow10((a - 1) as nat) * pow10(b))) by (nonlinear_arith)
            requires
                pow10(a) == 10 * pow10((a - 1) as nat),
        ;
    }
}

} // verus!
