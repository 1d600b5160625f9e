//! Character-level helpers shared by the parsers: digits, decimal numbers,
//! Unicode white space, trimming and searching.
use vstd::prelude::*;

verus! {

/// Whether `c` is an ASCII decimal digit.
pub open spec fn is_digit(c: char) -> bool {
    '0' <= c && c <= '9'
}

/// The value of an ASCII decimal digit.
pub open spec fn digit_value(c: char) -> int {
    (c as u32) - ('0' as u32)
}

/// Every character of `s` is an ASCII decimal digit.
pub open spec fn all_digits(s: Seq<char>) -> bool {
    forall|i: int| 0 <= i < s.len() ==> is_digit(#[trigger] s[i])
}

/// The number written by the decimal digits `s`, most significant first.
pub open spec fn decimal_value(s: Seq<char>) -> int
    decreases s.len(),
{
    if s.len() == 0 {
        0
    } else {
        10 * decimal_value(s.drop_last()) + digit_value(s.last())
    }
}

/// What `str::parse::<u64>` gives for the text `s`: one optional leading `+`,
/// then one or more decimal digits whose value fits in a `u64`.
pub open spec fn spec_parse_u64(s: Seq<char>) -> Option<u64> {
    let d = if s.len() > 1 && s[0] == '+' { s.drop_first() } else { s };
    if d.len() > 0 && all_digits(d) && decimal_value(d) <= u64::MAX {
        Some(decimal_value(d) as u64)
    } else {
        None
    }
}

/// The characters with the Unicode `White_Space` property, which is what
/// `char::is_whitespace` tests and what `str::trim` removes.
pub open spec fn is_white_space(c: char) -> bool {
    ||| ('\u{9}' <= c && c <= '\u{d}')
    ||| c == ' '
    ||| c == '\u{85}'
    ||| c == '\u{a0}'
    ||| c == '\u{1680}'
    ||| ('\u{2000}' <= c && c <= '\u{200a}')
    ||| c == '\u{2028}'
    ||| c == '\u{2029}'
    ||| c == '\u{202f}'
    ||| c == '\u{205f}'
    ||| c == '\u{3000}'
}

/// `s` without its leading white space.
pub open spec fn trim_start(s: Seq<char>) -> Seq<char>
    decreases s.len(),
{
    if s.len() > 0 && is_white_space(s[0]) {
        trim_start(s.drop_first())
    } else {
        s
    }
}

/// `s` without its trailing white space.
pub open spec fn trim_end(s: Seq<char>) -> Seq<char>
    decreases s.len(),
{
    if s.len() > 0 && is_white_space(s.last()) {
        trim_end(s.drop_last())
    } else {
        s
    }
}

/// `s` without leading and trailing white space, as `str::trim` gives it.
pub open spec fn trim(s: Seq<char>) -> Seq<char> {
    trim_end(trim_start(s))
}

/// The first position at or after `from` where `s` holds `c`.
pub open spec fn find_char(s: Seq<char>, c: char, from: int) -> Option<int>
    decreases s.len() - from,
{
    if 0 <= from < s.len() {
        if s[from] == c {
            Some(from)
        } else {
            find_char(s, c, from + 1)
        }
    } else {
        None
    }
}

pub proof fn lemma_find_char_found(s: Seq<char>, c: char, from: int)
    requires
        0 <= from,
    ensures
        find_char(s, c, from) matches Some(k) ==> from <= k < s.len() && s[k] == c && (forall|
            j: int,
        | from <= j < k ==> s[j] != c),
        find_char(s, c, from) is None ==> forall|j: int| from <= j < s.len() ==> s[j] != c,
    decreases s.len() - from,
{
    if from < s.len() && s[from] != c {
        lemma_find_char_found(s, c, from + 1);
    }
}

pub proof fn lemma_decimal_value_nonneg(s: Seq<char>)
    requires
        all_digits(s),
    ensures
        decimal_value(s) >= 0,
    decreases s.len(),
{
    if s.len() > 0 {
        assert(all_digits(s.drop_last())) by {
            assert forall|i: int| 0 <= i < s.drop_last().len() implies is_digit(
                #[trigger] s.drop_last()[i],
            ) by {
                assert(s.drop_last()[i] == s[i]);
            }
        }
        lemma_decimal_value_nonneg(s.drop_last());
        assert(is_digit(s[s.len() - 1]));
    }
}

/// Reading more digits never makes the number smaller.
pub proof fn lemma_decimal_value_prefix(s: Seq<char>, k: int)
    requires
        all_digits(s),
        0 <= k <= s.len(),
    ensures
        decimal_value(s.take(k)) <= decimal_value(s),
    decreases s.len() - k,
{
    if k < s.len() {
        let t = s.take(k + 1);
        assert(all_digits(t)) by {
            assert forall|i: int| 0 <= i < t.len() implies is_digit(#[trigger] t[i]) by {
                assert(t[i] == s[i]);
            }
        }
        assert(t.drop_last() =~= s.take(k));
        assert(is_digit(t.last()));
        lemma_decimal_value_nonneg(s.take(k));
        lemma_decimal_value_prefix(s, k + 1);
    } else {
        assert(s.take(k) =~= s);
    }
}

/// The digits of `v` from `from` (inclusive) to `to` (exclusive), as a new vector.
pub fn copy_range(v: &Vec<char>, from: usize, to: usize) -> (r: Vec<char>)
    requires
        from <= to <= v.len(),
    ensures
        r@ == v@.subrange(from as int, to as int),
{
    let mut r: Vec<char> = Vec::new();
    let mut i = from;
    while i < to
        invariant
            from <= i <= to <= v.len(),
            r@ == v@.subrange(from as int, i as int),
        decreases to - i,
    {
        r.push(v[i]);
        i += 1;
    }
    r
}

/// The first position at or after `from` where `v` holds `c`.
pub fn find_in(v: &Vec<char>, c: char, from: usize) -> (r: Option<usize>)
    ensures
        match r {
            Some(k) => find_char(v@, c, from as int) == Some(k as int),
            None => find_char(v@, c, from as int) is None,
        },
{
    let mut i = from;
    while i < v.len()
        invariant
            from <= i,
            find_char(v@, c, from as int) == find_char(v@, c, i as int),
        decreases v.len() - i,
    {
        if v[i] == c {
            return Some(i);
        }
        i += 1;
    }
    None
}

/// Whether `c` has the Unicode `White_Space` property.
pub fn white_space(c: char) -> (r: bool)
    ensures
        r == is_white_space(c),
{
    ('\u{9}' <= c && c <= '\u{d}') || c == ' ' || c == '\u{85}' || c == '\u{a0}' || c == '\u{1680}'
        || ('\u{2000}' <= c && c <= '\u{200a}') || c == '\u{2028}' || c == '\u{2029}' || c
        == '\u{202f}' || c == '\u{205f}' || c == '\u{3000}'
}

/// Where the text of `v` from `from` on lies once trimmed: `v[a..b]` is that
/// text without its leading and trailing white space.
pub fn trim_bounds(v: &Vec<char>, from: usize) -> (r: (usize, usize))
    requires
        from <= v.len(),
    ensures
        from <= r.0 <= r.1 <= v.len(),
        v@.subrange(r.0 as int, r.1 as int) == trim(v@.subrange(from as int, v.len() as int)),
{
    let n = v.len();
    let ghost s = v@.subrange(from as int, n as int);
    let mut a: usize = from;
    while a < n && white_space(v[a])
        invariant
            from <= a <= n == v.len(),
            s == v@.subrange(from as int, n as int),
            trim_start(s) == trim_start(v@.subrange(a as int, n as int)),
        decreases n - a,
    {
        assert(v@.subrange(a as int, n as int).drop_first() =~= v@.subrange(a + 1, n as int));
        a += 1;
    }
    assert(trim_start(s) == v@.subrange(a as int, n as int));
    let mut b: usize = n;
    while b > a && white_space(v[b - 1])
        invariant
            from <= a <= b <= n == v.len(),
            s == v@.subrange(from as int, n as int),
            trim(s) == trim_end(v@.subrange(a as int, b as int)),
        decreases b - a,
    {
        assert(v@.subrange(a as int, b as int).drop_last() =~= v@.subrange(a as int, b - 1));
        b -= 1;
    }
    (a, b)
}

/// The characters of `s`, in order.
pub fn chars_of(s: &str) -> (r: Vec<char>)
    ensures
        r@ == s@,
{
    let mut r: Vec<char> = Vec::new();
    for c in it: s.chars()
        invariant
            r@ == it.seq().take(it.index() as int),
    {
        r.push(c);
    }
    r
}

/// The value of the `u64` written in `v`, as `str::parse::<u64>` reads it.
pub fn parse_u64(v: &Vec<char>) -> (r: Option<u64>)
    ensures
        r == spec_parse_u64(v@),
{
    let n = v.len();
    let start: usize = if n > 1 && v[0] == '+' {
        1
    } else {
        0
    };
    let ghost d = if v@.len() > 1 && v@[0] == '+' {
        v@.drop_first()
    } else {
        v@
    };
    assert(d =~= v@.subrange(start as int, n as int));
    if start == n {
        return None;
    }
    let mut acc: u64 = 0;
    let mut i = start;
    while i < n
        invariant
            start <= i <= n == v.len(),
            d == v@.subrange(start as int, n as int),
            d == (if v@.len() > 1 && v@[0] == '+' {
                v@.drop_first()
            } else {
                v@
            }),
            all_digits(d.take(i - start)),
            acc == decimal_value(d.take(i - start)),
        decreases n - i,
    {
        let c = v[i];
        assert(c == d[i - start]);
        let ghost k: int = i - start;
        assert(d.take(k + 1).drop_last() =~= d.take(k));
        if !('0' <= c && c <= '9') {
            assert(!all_digits(d));
            return None;
        }
        assert(all_digits(d.take(k + 1))) by {
            assert forall|j: int| 0 <= j < k + 1 implies is_digit(#[trigger] d.take(k + 1)[j]) by {
                if j < k {
                    assert(d.take(k + 1)[j] == d.take(k)[j]);
                }
            }
        }
        let dv = (c as u32 - '0' as u32) as u64;
        match acc.checked_mul(10) {
            Some(m) => match m.checked_add(dv) {
                Some(s) => {
                    acc = s;
                },
                None => {
                    proof {
                        if all_digits(d) {
                            lemma_decimal_value_prefix(d, k + 1);
                        }
                    }
                    return None;
                },
            },
            None => {
                proof {
                    lemma_decimal_value_nonneg(d.take(k));
                    if all_digits(d) {
                        lemma_decimal_value_prefix(d, k + 1);
                    }
                }
                return None;
            },
        }
        i += 1;
    }
    assert(d.take(n - start) =~= d);
    Some(acc)
}

/// Digits are read in base ten, most significant first: `'0'` is 0, `'9'` is
/// 9, and one more digit at the end multiplies what was read by ten and adds
/// its value.
pub proof fn law_decimal_digits(s: Seq<char>, d: char)
    ensures
        digit_value('0') == 0,
        digit_value('9') == 9,
        decimal_value(Seq::empty()) == 0,
        decimal_value(s.push(d)) == 10 * decimal_value(s) + digit_value(d),
{
    assert(s.push(d).drop_last() =~= s);
}

/// A `u64` is read from one or more digits, with one `+` allowed before
/// them, when its value fits; an empty text, a lone `+`, or a text with a
/// character that is no digit after the sign is no number.
pub proof fn law_parse_u64(s: Seq<char>)
    ensures
        (s.len() > 0 && all_digits(s) && decimal_value(s) <= u64::MAX) ==> spec_parse_u64(s) == Some(
            decimal_value(s) as u64,
        ),
        (s.len() > 0 && all_digits(s) && decimal_value(s) <= u64::MAX) ==> spec_parse_u64(
            seq!['+'] + s,
        ) == Some(decimal_value(s) as u64),
        (s.len() > 0 && all_digits(s) && decimal_value(s) > u64::MAX) ==> spec_parse_u64(s) is None,
        spec_parse_u64(Seq::empty()) is None,
        spec_parse_u64(seq!['+']) is None,
        (exists|i: int| 0 <= i < s.len() && !is_digit(#[trigger] s[i])) ==> spec_parse_u64(
            seq!['+'] + s,
        ) is None,
{
    let p = seq!['+'] + s;
    assert(p.drop_first() =~= s);
    if s.len() > 0 && all_digits(s) {
        assert(s[0] != '+');
    }
    if exists|i: int| 0 <= i < s.len() && !is_digit(#[trigger] s[i]) {
        let i = choose|i: int| 0 <= i < s.len() && !is_digit(#[trigger] s[i]);
        assert(p.drop_first()[i] == s[i]);
        assert(!all_digits(p.drop_first()));
        assert(!all_digits(p)) by {
            assert(!is_digit(p[0]));
        }
    }
}

/// Space, tab, line breaks and the other Unicode spaces are white space;
/// letters, digits and brackets are not.
pub proof fn law_white_space(c: char)
    ensures
        is_white_space(' '),
        is_white_space('\t'),
        is_white_space('\n'),
        is_white_space('\r'),
        is_white_space('\u{a0}'),
        is_white_space('\u{3000}'),
        (('a' <= c && c <= 'z') || ('A' <= c && c <= 'Z') || ('0' <= c && c <= '9') || c == '['
            || c == ']') ==> !is_white_space(c),
{
}

/// Trimming keeps a piece of the text, from its first character that is no
/// white space to its last one, and drops only white space around it.
pub proof fn law_trim(s: Seq<char>)
    ensures
        exists|a: int, b: int|
            #![trigger s.subrange(a, b)]
            0 <= a <= b <= s.len() && trim(s) == s.subrange(a, b) && (forall|i: int|
                0 <= i < a ==> is_white_space(#[trigger] s[i])) && (forall|i: int|
                b <= i < s.len() ==> is_white_space(#[trigger] s[i])),
        trim(s).len() > 0 ==> !is_white_space(trim(s)[0]) && !is_white_space(trim(s).last()),
{
    let (a, x) = lemma_trim_start_parts(s);
    let (k, y) = lemma_trim_end_parts(x);
    assert(trim(s) == s.subrange(a, a + k));
    assert forall|i: int| a + k <= i < s.len() implies is_white_space(#[trigger] s[i]) by {
        assert(s[i] == x[i - a]);
    }
    if trim(s).len() > 0 {
        lemma_trim_start_first(s);
        assert(trim(s)[0] == x[0]);
    }
}

proof fn lemma_trim_start_first(s: Seq<char>)
    ensures
        trim_start(s).len() > 0 ==> !is_white_space(trim_start(s)[0]),
    decreases s.len(),
{
    if s.len() > 0 && is_white_space(s[0]) {
        lemma_trim_start_first(s.drop_first());
    }
}

proof fn lemma_trim_start_parts(s: Seq<char>) -> (r: (int, Seq<char>))
    ensures
        0 <= r.0 <= s.len(),
        r.1 == trim_start(s),
        trim_start(s) == s.subrange(r.0, s.len() as int),
        forall|i: int| 0 <= i < r.0 ==> is_white_space(#[trigger] s[i]),
    decreases s.len(),
{
    if s.len() > 0 && is_white_space(s[0]) {
        let (a, x) = lemma_trim_start_parts(s.drop_first());
        assert(s.drop_first().subrange(a, s.drop_first().len() as int) =~= s.subrange(
            a + 1,
            s.len() as int,
        ));
        assert forall|i: int| 0 <= i < a + 1 implies is_white_space(#[trigger] s[i]) by {
            if i > 0 {
                assert(s[i] == s.drop_first()[i - 1]);
            }
        }
        (a + 1, x)
    } else {
        assert(s.subrange(0, s.len() as int) =~= s);
        (0, s)
    }
}

proof fn lemma_trim_end_parts(s: Seq<char>) -> (r: (int, Seq<char>))
    ensures
        0 <= r.0 <= s.len(),
        r.1 == trim_end(s),
        trim_end(s) == s.subrange(0, r.0),
        forall|i: int| r.0 <= i < s.len() ==> is_white_space(#[trigger] s[i]),
        trim_end(s).len() > 0 ==> !is_white_space(trim_end(s).last()),
    decreases s.len(),
{
    if s.len() > 0 && is_white_space(s.last()) {
        let (k, y) = lemma_trim_end_parts(s.drop_last());
        assert(s.drop_last().subrange(0, k) =~= s.subrange(0, k));
        assert forall|i: int| k <= i < s.len() implies is_white_space(#[trigger] s[i]) by {
            if i < s.len() - 1 {
                assert(s[i] == s.drop_last()[i]);
            }
        }
        (k, y)
    } else {
        assert(s.subrange(0, s.len() as int) =~= s);
        (s.len() as int, s)
    }
}

} // verus!
