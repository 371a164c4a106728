//! Character-level helpers: decimal digits, zero padding, integer parsing,
//! and moving between `&str`, `String` and `Vec<char>`.

use vstd::prelude::*;

verus! {

/// An ASCII decimal digit.
pub open spec fn is_digit(c: char) -> bool {
    '0' as u32 <= c as u32 && c as u32 <= '9' as u32
}

/// The numeric value of a digit character.
pub open spec fn digit_val(c: char) -> nat {
    (c as u32 - '0' as u32) as nat
}

/// The character of a digit value below ten.
pub open spec fn digit_char(n: nat) -> char {
    ((n + '0' as u32) as u32) as char
}

/// Every character of `s` is a decimal digit.
pub open spec fn all_digits(s: Seq<char>) -> bool {
    forall|i: int| 0 <= i < s.len() ==> is_digit(#[trigger] s[i])
}

/// The value of a string of decimal digits, most significant first.
pub open spec fn digits_value(s: Seq<char>) -> nat
    decreases s.len(),
{
    if s.len() == 0 {
        0
    } else {
        digits_value(s.drop_last()) * 10 + digit_val(s.last())
    }
}

/// The shortest decimal representation of `n`.
pub open spec fn decimal(n: nat) -> Seq<char>
    decreases n,
{
    if n < 10 {
        seq![digit_char(n)]
    } else {
        decimal(n / 10).push(digit_char(n % 10))
    }
}

/// `s` left-padded with `'0'` to at least `w` characters.
pub open spec fn zero_pad(s: Seq<char>, w: nat) -> Seq<char> {
    if s.len() >= w {
        s
    } else {
        Seq::new((w - s.len()) as nat, |i: int| '0') + s
    }
}

/// How an integer prints with a zero-padded width `w` (the sign counts toward the width).
pub open spec fn padded_int(v: int, w: nat) -> Seq<char> {
    if v < 0 {
        seq!['-'] + zero_pad(decimal((-v) as nat), if w >= 1 { (w - 1) as nat } else { 0 })
    } else {
        zero_pad(decimal(v as nat), w)
    }
}

/// What parsing `s` as a decimal integer in `[lo, hi]` gives: an optional `+`
/// (or, when `signed`, `-`) followed by at least one digit and nothing else.
pub open spec fn int_of_str(s: Seq<char>, signed: bool, lo: int, hi: int) -> Option<int> {
    if s.len() == 0 {
        None
    } else if (s[0] == '+' || s[0] == '-') && s.len() == 1 {
        None
    } else {
        let neg = signed && s[0] == '-';
        let body = if s[0] == '+' || neg { s.drop_first() } else { s };
        if !all_digits(body) {
            None
        } else {
            let v = if neg { -(digits_value(body) as int) } else { digits_value(body) as int };
            if lo <= v && v <= hi {
                Some(v)
            } else {
                None
            }
        }
    }
}

/// The first index at or after `i` where `c` occurs in `s`.
pub open spec fn index_from(s: Seq<char>, c: char, i: int) -> Option<int>
    decreases s.len() - i,
{
    if i < 0 || i >= s.len() {
        None
    } else if s[i] == c {
        Some(i)
    } else {
        index_from(s, c, i + 1)
    }
}

/// The ASCII characters of `s` with `A`..=`Z` turned into `a`..=`z`.
pub open spec fn ascii_lower(s: Seq<char>) -> Seq<char> {
    s.map_values(|c: char| if 'A' as u32 <= c as u32 && c as u32 <= 'Z' as u32 { ((c as u32) + 32) as char } else { c })
}

/// Every character of `s` is ASCII.
pub open spec fn all_ascii(s: Seq<char>) -> bool {
    forall|i: int| 0 <= i < s.len() ==> (#[trigger] s[i]) as u32 <= 0x7f
}

/// What `str::to_lowercase` returns for `s` (Unicode lowercase mapping).
pub uninterp spec fn lowercase_of(s: Seq<char>) -> Seq<char>;

/// Lowercases a string.
///
/// Calls `str::to_lowercase`. The result is named `lowercase_of`, a function of
/// the input alone; for ASCII input the documented mapping is stated: `A`..=`Z`
/// become `a`..=`z` and every other character stays. The full Unicode mapping
/// for other characters is left unsaid.
#[verifier::external_body]
pub(crate) fn to_lowercase(s: &str) -> (r: String)
    ensures
        r@ == lowercase_of(s@),
        all_ascii(s@) ==> r@ == ascii_lower(s@),
{
    s.to_lowercase()
}

/// Two character vectors are equal.
pub fn chars_eq(a: &Vec<char>, b: &Vec<char>) -> (r: bool)
    ensures
        r == (a@ == b@),
{
    if a.len() != b.len() {
        return false;
    }
    let mut i: usize = 0;
    while i < a.len()
        invariant
            a.len() == b.len(),
            i <= a.len(),
            forall|k: int| 0 <= k < i ==> a@[k] == b@[k],
        decreases a.len() - i,
    {
        if a[i] != b[i] {
            return false;
        }
        i += 1;
    }
    assert(a@ == b@);
    true
}

/// The characters of an optional string slice.
pub open spec fn opt_chars(o: Option<&str>) -> Option<Seq<char>> {
    match o {
        Some(s) => Some(s@),
        None => None,
    }
}

/// The characters of an optional string.
pub open spec fn opt_text(o: Option<String>) -> Option<Seq<char>> {
    match o {
        Some(s) => Some(s@),
        None => None,
    }
}

/// The characters of a string slice.
pub fn chars_of(s: &str) -> (v: Vec<char>)
    ensures
        v@ == s@,
{
    let mut v: Vec<char> = Vec::new();
    for c in it: s.chars()
        invariant
            v@ == it.seq().take(it.index() as int),
    {
        v.push(c);
    }
    v
}

/// Appends one character to a `String`.
///
/// Calls `String::push`, which appends the character at the end.
#[verifier::external_body]
fn push_char(s: &mut String, c: char)
    ensures
        final(s)@ == old(s)@.push(c),
{
    s.push(c);
}

/// A `String` holding the given characters.
pub fn string_of(v: &Vec<char>) -> (s: String)
    ensures
        s@ == v@,
{
    let mut s = String::new();
    let mut i: usize = 0;
    while i < v.len()
        invariant
            i <= v.len(),
            s@ == v@.take(i as int),
        decreases v.len() - i,
    {
        push_char(&mut s, v[i]);
        i += 1;
        assert(v@.take(i as int) == v@.take((i - 1) as int).push(v@[i - 1]));
    }
    assert(v@.take(v.len() as int) == v@);
    s
}

/// Appends the decimal digits of `n`.
pub fn push_decimal(out: &mut Vec<char>, n: u64)
    ensures
        final(out)@ == old(out)@ + decimal(n as nat),
    decreases n,
{
    if n >= 10 {
        push_decimal(out, n / 10);
    }
    let d = (n % 10) as u32;
    let c = char_of_digit(d);
    out.push(c);
    proof {
        if n >= 10 {
            assert(decimal(n as nat) == decimal((n / 10) as nat).push(digit_char((n % 10) as nat)));
        }
    }
    assert(final(out)@ == old(out)@ + decimal(n as nat));
}

/// A digit string's value is at least the value of any of its prefixes.
pub proof fn lemma_digits_prefix_le(s: Seq<char>, k: int)
    requires
        0 <= k <= s.len(),
    ensures
        digits_value(s.take(k)) <= digits_value(s),
    decreases s.len() - k,
{
    if k < s.len() {
        lemma_digits_prefix_le(s, k + 1);
        assert(s.take(k + 1).drop_last() == s.take(k));
    } else {
        assert(s.take(k) == s);
    }
}

/// Parses `s[start..end]` as a decimal integer in `[lo, hi]`, as `str::parse` does.
#[verifier::loop_isolation(false)]
pub fn parse_int(s: &Vec<char>, start: usize, end: usize, signed: bool, lo: i128, hi: i128) -> (r: Option<i128>)
    requires
        start <= end <= s.len(),
        -0x8000_0000_0000_0000 <= lo <= hi <= 0xffff_ffff_ffff_ffff,
    ensures
        r matches Some(v) ==> int_of_str(s@.subrange(start as int, end as int), signed, lo as int, hi as int) == Some(v as int),
        r is None ==> int_of_str(s@.subrange(start as int, end as int), signed, lo as int, hi as int) is None,
{
    let ghost t = s@.subrange(start as int, end as int);
    if start == end {
        return None;
    }
    let c0 = s[start];
    if (c0 == '+' || c0 == '-') && end - start == 1 {
        return None;
    }
    let neg = signed && c0 == '-';
    let body_start: usize = if c0 == '+' || neg { start + 1 } else { start };
    let ghost body = s@.subrange(body_start as int, end as int);
    assert(body == if t[0] == '+' || neg { t.drop_first() } else { t });
    let limit: u128 = 0x1_0000_0000_0000_0000;
    let mut acc: u128 = 0;
    let mut i: usize = body_start;
    while i < end
        invariant
            start <= body_start <= i <= end <= s.len(),
            body == s@.subrange(body_start as int, end as int),
            all_digits(s@.subrange(body_start as int, i as int)),
            acc as nat == digits_value(s@.subrange(body_start as int, i as int)),
            acc <= limit,
        decreases end - i,
    {
        let c = s[i];
        if !((c as u32) >= ('0' as u32) && (c as u32) <= ('9' as u32)) {
            assert(!is_digit(body[i - body_start]));
            return None;
        }
        let d = ((c as u32) - ('0' as u32)) as u128;
        acc = acc * 10 + d;
        i += 1;
        assert(s@.subrange(body_start as int, i as int).drop_last() == s@.subrange(body_start as int, (i - 1) as int));
        if acc > limit {
            proof {
                if all_digits(body) {
                    assert(body.take(i - body_start) == s@.subrange(body_start as int, i as int));
                    lemma_digits_prefix_le(body, i - body_start);
                }
            }
            return None;
        }
    }
    let v: i128 = if neg { -(acc as i128) } else { acc as i128 };
    if lo <= v && v <= hi {
        Some(v)
    } else {
        None
    }
}

fn char_of_digit(d: u32) -> (c: char)
    requires
        d < 10,
    ensures
        c == digit_char(d as nat),
        is_digit(c),
{
    let c = match d {
        0 => '0',
        1 => '1',
        2 => '2',
        3 => '3',
        4 => '4',
        5 => '5',
        6 => '6',
        7 => '7',
        8 => '8',
        _ => '9',
    };
    c
}

/// `decimal(n)` is a nonempty digit string whose value is `n`.
pub proof fn lemma_decimal(n: nat)
    ensures
        all_digits(decimal(n)),
        decimal(n).len() >= 1,
        digits_value(decimal(n)) == n,
    decreases n,
{
    if n >= 10 {
        lemma_decimal(n / 10);
        let s = decimal(n);
        assert(s.drop_last() == decimal(n / 10));
        assert(digit_val(digit_char(n % 10)) == n % 10);
        assert(digits_value(s) == digits_value(decimal(n / 10)) * 10 + n % 10);
        assert(all_digits(s)) by {
            assert forall|i: int| 0 <= i < s.len() implies is_digit(#[trigger] s[i]) by {
                if i < s.len() - 1 {
                    assert(s[i] == decimal(n / 10)[i]);
                }
            }
        }
    } else {
        let s = decimal(n);
        assert(s.drop_last() == Seq::<char>::empty());
        assert(digits_value(s.drop_last()) == 0);
        assert(digit_val(digit_char(n)) == n);
    }
}

/// `10` to the power `w`.
pub open spec fn ten_pow(w: nat) -> nat
    decreases w,
{
    if w == 0 { 1 } else { 10 * ten_pow((w - 1) as nat) }
}

/// A number below `10^w` has at most `w` decimal digits, and zero-padding it
/// to width `w` gives exactly `w` characters.
pub proof fn lemma_decimal_width(n: nat, w: nat)
    requires
        w >= 1,
        n < ten_pow(w),
    ensures
        decimal(n).len() <= w,
        zero_pad(decimal(n), w).len() == w,
    decreases w,
{
    if n >= 10 {
        assert(w >= 2) by {
            reveal_with_fuel(ten_pow, 2);
        }
        lemma_decimal_width(n / 10, (w - 1) as nat);
    }
}

/// A run of `k` zero characters.
pub open spec fn zeros(k: nat) -> Seq<char> {
    Seq::new(k, |i: int| '0')
}

proof fn lemma_zeros_value(k: nat)
    ensures
        digits_value(zeros(k)) == 0,
        all_digits(zeros(k)),
    decreases k,
{
    if k > 0 {
        assert(zeros(k).drop_last() == zeros((k - 1) as nat));
        lemma_zeros_value((k - 1) as nat);
    }
}

/// Leading zeros change neither the value nor the all-digits property.
pub proof fn lemma_leading_zeros(k: nat, s: Seq<char>)
    requires
        all_digits(s),
    ensures
        digits_value(zeros(k) + s) == digits_value(s),
        all_digits(zeros(k) + s),
    decreases s.len(),
{
    lemma_zeros_value(k);
    if s.len() == 0 {
        assert(zeros(k) + s == zeros(k));
    } else {
        lemma_leading_zeros(k, s.drop_last());
        assert((zeros(k) + s).drop_last() == zeros(k) + s.drop_last());
    }
    let t = zeros(k) + s;
    assert forall|i: int| 0 <= i < t.len() implies is_digit(#[trigger] t[i]) by {
        if i >= k {
            assert(t[i] == s[i - k]);
        }
    }
}

/// A zero-padded decimal is a nonempty digit string holding the same value.
pub proof fn lemma_zero_pad_decimal(n: nat, w: nat)
    ensures
        all_digits(zero_pad(decimal(n), w)),
        zero_pad(decimal(n), w).len() >= 1,
        digits_value(zero_pad(decimal(n), w)) == n,
{
    lemma_decimal(n);
    let s = decimal(n);
    if s.len() < w {
        assert(zero_pad(s, w) == zeros((w - s.len()) as nat) + s);
        lemma_leading_zeros((w - s.len()) as nat, s);
    }
}

/// A nonempty digit string parses to its value when the value is in range.
pub proof fn lemma_int_of_digits(s: Seq<char>, signed: bool, lo: int, hi: int)
    requires
        all_digits(s),
        s.len() >= 1,
        lo <= digits_value(s) <= hi,
    ensures
        int_of_str(s, signed, lo, hi) == Some(digits_value(s) as int),
{
    assert(is_digit(s[0]));
}

/// In `p + [c] + r` where `p` holds no `c` from index `i` on, the first `c`
/// at or after `i` is at `p.len()`.
pub proof fn lemma_index_from_concat(p: Seq<char>, c: char, r: Seq<char>, i: int)
    requires
        0 <= i <= p.len(),
        forall|k: int| i <= k < p.len() ==> p[k] != c,
    ensures
        index_from(p + seq![c] + r, c, i) == Some(p.len() as int),
    decreases p.len() - i,
{
    let t = p + seq![c] + r;
    if i < p.len() {
        assert(t[i] == p[i]);
        lemma_index_from_concat(p, c, r, i + 1);
    } else {
        assert(t[i] == c);
    }
}

/// The index that `index_from` finds holds `c`, and none before it from `i` on.
pub proof fn lemma_index_from_first(s: Seq<char>, c: char, i: int)
    ensures
        index_from(s, c, i) matches Some(p) ==> i <= p < s.len() && s[p] == c
            && forall|k: int| i <= k < p ==> s[k] != c,
    decreases s.len() - i,
{
    if 0 <= i < s.len() && s[i] != c {
        lemma_index_from_first(s, c, i + 1);
    }
}

/// `c` is white space as `char::is_whitespace` defines it (the Unicode
/// `White_Space` property).
pub open spec fn is_white(c: char) -> bool {
    let u = c as u32;
    (0x09 <= u && u <= 0x0d) || u == 0x20 || u == 0x85 || u == 0xa0 || u == 0x1680
        || (0x2000 <= u && u <= 0x200a) || u == 0x2028 || u == 0x2029 || u == 0x202f
        || u == 0x205f || u == 0x3000
}

/// Whether a character is white space.
pub fn char_is_white(c: char) -> (r: bool)
    ensures
        r == is_white(c),
{
    let u = c as u32;
    (0x09 <= u && u <= 0x0d) || u == 0x20 || u == 0x85 || u == 0xa0 || u == 0x1680
        || (0x2000 <= u && u <= 0x200a) || u == 0x2028 || u == 0x2029 || u == 0x202f
        || u == 0x205f || u == 0x3000
}

/// `s` without its leading and trailing white space, as `str::trim` gives it.
pub open spec fn trimmed(s: Seq<char>) -> Seq<char>
    decreases s.len(),
{
    if s.len() == 0 {
        s
    } else if is_white(s[0]) {
        trimmed(s.drop_first())
    } else if is_white(s.last()) {
        trimmed(s.drop_last())
    } else {
        s
    }
}

/// The pieces of `s` between occurrences of `c`, as `str::split(c)` yields them.
pub open spec fn split_on(s: Seq<char>, c: char) -> Seq<Seq<char>>
    decreases s.len(),
{
    if s.len() == 0 {
        seq![Seq::<char>::empty()]
    } else {
        let rest = split_on(s.drop_first(), c);
        if s[0] == c {
            seq![Seq::<char>::empty()] + rest
        } else {
            rest.update(0, seq![s[0]] + rest[0])
        }
    }
}

pub proof fn lemma_split_nonempty(s: Seq<char>, c: char)
    ensures
        split_on(s, c).len() >= 1,
    decreases s.len(),
{
    if s.len() > 0 {
        lemma_split_nonempty(s.drop_first(), c);
    }
}

/// Joining `x` in front of the first of several parts.
proof fn lemma_joined_prepend(x: Seq<char>, parts: Seq<Seq<char>>, sep: Seq<char>)
    requires
        parts.len() >= 1,
    ensures
        joined(seq![x] + parts, sep) == x + sep + joined(parts, sep),
    decreases parts.len(),
{
    let all = seq![x] + parts;
    if parts.len() == 1 {
        assert(all.drop_last() =~= seq![x]);
        assert(joined(all.drop_last(), sep) == x);
        assert(all.last() == parts[0]);
        assert(joined(all, sep) == joined(all.drop_last(), sep) + sep + all.last());
        assert(joined(parts, sep) == parts[0]);
    } else {
        lemma_joined_prepend(x, parts.drop_last(), sep);
        assert(all.drop_last() =~= seq![x] + parts.drop_last());
        assert(all.last() == parts.last());
        assert(joined(all, sep) == joined(all.drop_last(), sep) + sep + all.last());
        assert(joined(parts, sep) == joined(parts.drop_last(), sep) + sep + parts.last());
        assert(x + sep + joined(parts.drop_last(), sep) + sep + parts.last()
            =~= x + sep + (joined(parts.drop_last(), sep) + sep + parts.last()));
    }
}

/// Putting `x` in front of the first part puts it in front of the whole.
proof fn lemma_joined_extend_first(x: Seq<char>, parts: Seq<Seq<char>>, sep: Seq<char>)
    requires
        parts.len() >= 1,
    ensures
        joined(parts.update(0, x + parts[0]), sep) == x + joined(parts, sep),
    decreases parts.len(),
{
    let up = parts.update(0, x + parts[0]);
    if parts.len() == 1 {
        assert(up[0] == x + parts[0]);
    } else {
        lemma_joined_extend_first(x, parts.drop_last(), sep);
        assert(up.drop_last() =~= parts.drop_last().update(0, x + parts.drop_last()[0]));
        assert(up.last() == parts.last());
        assert(x + joined(parts.drop_last(), sep) + sep + parts.last()
            =~= x + (joined(parts.drop_last(), sep) + sep + parts.last()));
    }
}

/// Splitting at `c` cuts `s` into pieces that hold no `c` and that, joined
/// with `c` again, give `s` back.
pub proof fn lemma_split_on_joins_back(s: Seq<char>, c: char)
    ensures
        joined(split_on(s, c), seq![c]) == s,
        forall|i: int| 0 <= i < split_on(s, c).len() ==> !(#[trigger] split_on(s, c)[i]).contains(c),
    decreases s.len(),
{
    lemma_split_nonempty(s, c);
    if s.len() == 0 {
        assert(split_on(s, c)[0] =~= Seq::<char>::empty());
    } else {
        let t = s.drop_first();
        let rest = split_on(t, c);
        lemma_split_on_joins_back(t, c);
        lemma_split_nonempty(t, c);
        if s[0] == c {
            lemma_joined_prepend(Seq::<char>::empty(), rest, seq![c]);
            assert(Seq::<char>::empty() + seq![c] + t =~= s);
            let all = split_on(s, c);
            assert forall|i: int| 0 <= i < all.len() implies !(#[trigger] all[i]).contains(c) by {
                if i > 0 {
                    assert(all[i] == rest[i - 1]);
                }
            }
        } else {
            lemma_joined_extend_first(seq![s[0]], rest, seq![c]);
            assert(seq![s[0]] + t =~= s);
            let all = split_on(s, c);
            assert forall|i: int| 0 <= i < all.len() implies !(#[trigger] all[i]).contains(c) by {
                if i == 0 {
                    let p = seq![s[0]] + rest[0];
                    assert(all[0] == p);
                    if p.contains(c) {
                        let k = choose|k: int| 0 <= k < p.len() && p[k] == c;
                        if k > 0 {
                            assert(rest[0][k - 1] == c);
                            assert(rest[0].contains(c));
                        }
                    }
                } else {
                    assert(all[i] == rest[i]);
                }
            }
        }
    }
}

/// Where `trimmed(s)` starts and ends in `s`.
proof fn lemma_trim_bounds(s: Seq<char>) -> (r: (int, int))
    ensures
        0 <= r.0 <= r.1 <= s.len(),
        trimmed(s) == s.subrange(r.0, r.1),
        forall|k: int| 0 <= k < r.0 ==> is_white(#[trigger] s[k]),
        forall|k: int| r.1 <= k < s.len() ==> is_white(#[trigger] s[k]),
        r.0 < r.1 ==> !is_white(s[r.0]) && !is_white(s[r.1 - 1]),
    decreases s.len(),
{
    if s.len() == 0 {
        assert(s.subrange(0, 0) =~= s);
        (0, 0)
    } else if is_white(s[0]) {
        let t = s.drop_first();
        let (a, b) = lemma_trim_bounds(t);
        assert(t.subrange(a, b) =~= s.subrange(a + 1, b + 1));
        assert forall|k: int| 0 <= k < a + 1 implies is_white(#[trigger] s[k]) by {
            if k > 0 { assert(s[k] == t[k - 1]); }
        }
        assert forall|k: int| b + 1 <= k < s.len() implies is_white(#[trigger] s[k]) by {
            assert(s[k] == t[k - 1]);
        }
        (a + 1, b + 1)
    } else if is_white(s.last()) {
        let t = s.drop_last();
        let (a, b) = lemma_trim_bounds(t);
        assert(t.subrange(a, b) =~= s.subrange(a, b));
        assert forall|k: int| 0 <= k < a implies is_white(#[trigger] s[k]) by {
            assert(s[k] == t[k]);
        }
        assert forall|k: int| b <= k < s.len() implies is_white(#[trigger] s[k]) by {
            if k < t.len() { assert(s[k] == t[k]); }
        }
        (a, b)
    } else {
        assert(s.subrange(0, s.len() as int) =~= s);
        (0, s.len() as int)
    }
}

/// `trimmed(s)` is the stretch of `s` between its leading and its trailing
/// white space: what lies before and after it is all white space, and it
/// neither starts nor ends with white space.
pub proof fn lemma_trimmed_exact(s: Seq<char>)
    ensures
        exists|a: int, b: int| #![trigger s.subrange(a, b)] 0 <= a <= b <= s.len() && trimmed(s) == s.subrange(a, b)
            && (forall|k: int| 0 <= k < a ==> is_white(#[trigger] s[k]))
            && (forall|k: int| b <= k < s.len() ==> is_white(#[trigger] s[k]))
            && (a < b ==> !is_white(s[a]) && !is_white(s[b - 1])),
{
    let (a, b) = lemma_trim_bounds(s);
    assert(trimmed(s) == s.subrange(a, b));
}

/// A piece with one trailing carriage return removed.
pub open spec fn strip_cr(p: Seq<char>) -> Seq<char> {
    if p.len() > 0 && p.last() == '\r' {
        p.drop_last()
    } else {
        p
    }
}

/// The lines of `s` as `str::lines` yields them: split at `\n`, a `\r`
/// before a `\n` dropped, and no empty final line after a final `\n`.
pub open spec fn text_lines(s: Seq<char>) -> Seq<Seq<char>> {
    let pieces = split_on(s, '\n');
    let kept = if pieces.last().len() == 0 { pieces.drop_last() } else { pieces };
    Seq::new(kept.len(), |i: int| if i < pieces.len() - 1 { strip_cr(kept[i]) } else { kept[i] })
}

/// Splits `s` at every `c`.
pub fn split_chars(s: &Vec<char>, c: char) -> (r: Vec<Vec<char>>)
    ensures
        r@.len() == split_on(s@, c).len(),
        forall|i: int| 0 <= i < r@.len() ==> (#[trigger] r@[i])@ == split_on(s@, c)[i],
{
    let mut pieces: Vec<Vec<char>> = Vec::new();
    let mut cur: Vec<char> = Vec::new();
    let mut i: usize = 0;
    proof {
        lemma_split_nonempty(s@, c);
        assert(s@.subrange(0, s@.len() as int) == s@);
    }
    while i < s.len()
        invariant
            i <= s.len(),
            split_on(s@.subrange(i as int, s@.len() as int), c).len() >= 1,
            ({
                let tail = split_on(s@.subrange(i as int, s@.len() as int), c);
                let pv = pieces@.map_values(|v: Vec<char>| v@);
                split_on(s@, c) == pv + seq![cur@ + tail[0]] + tail.drop_first()
            }),
        decreases s.len() - i,
    {
        let ghost rest = s@.subrange(i as int, s@.len() as int);
        let ghost next = s@.subrange(i + 1, s@.len() as int);
        assert(rest.drop_first() == next);
        proof { lemma_split_nonempty(next, c); }
        let ghost old_pv = pieces@.map_values(|v: Vec<char>| v@);
        let ghost old_cur = cur@;
        if s[i] == c {
            let done = cur;
            pieces.push(done);
            cur = Vec::new();
            proof {
                let pv = pieces@.map_values(|v: Vec<char>| v@);
                assert(pv == old_pv.push(old_cur));
                let tn = split_on(next, c);
                assert(split_on(rest, c) == seq![Seq::<char>::empty()] + tn);
                assert(cur@ + tn[0] == tn[0]);
                assert(split_on(s@, c) == pv + seq![cur@ + tn[0]] + tn.drop_first());
            }
        } else {
            cur.push(s[i]);
            proof {
                let tn = split_on(next, c);
                assert(split_on(rest, c) == tn.update(0, seq![s@[i as int]] + tn[0]));
                assert(cur@ + tn[0] == old_cur + (seq![s@[i as int]] + tn[0]));
            }
        }
        i += 1;
    }
    proof {
        let tail = split_on(s@.subrange(i as int, s@.len() as int), c);
        assert(s@.subrange(i as int, s@.len() as int) == Seq::<char>::empty());
        assert(tail == seq![Seq::<char>::empty()]);
        assert(cur@ + tail[0] == cur@);
    }
    pieces.push(cur);
    proof {
        let pv = pieces@.map_values(|v: Vec<char>| v@);
        assert(split_on(s@, c) == pv);
    }
    pieces
}

/// `s` without leading and trailing white space.
pub fn trim_chars(s: &Vec<char>) -> (r: Vec<char>)
    ensures
        r@ == trimmed(s@),
{
    let mut lo: usize = 0;
    let mut hi: usize = s.len();
    assert(s@.subrange(0, s@.len() as int) == s@);
    while lo < hi && char_is_white(s[lo])
        invariant
            lo <= hi == s.len(),
            trimmed(s@.subrange(lo as int, hi as int)) == trimmed(s@),
        decreases hi - lo,
    {
        assert(s@.subrange(lo as int, hi as int).drop_first() == s@.subrange(lo + 1, hi as int));
        lo += 1;
    }
    while lo < hi && char_is_white(s[hi - 1])
        invariant
            lo <= hi <= s.len(),
            lo < hi ==> !is_white(s@[lo as int]),
            trimmed(s@.subrange(lo as int, hi as int)) == trimmed(s@),
        decreases hi - lo,
    {
        let ghost sub = s@.subrange(lo as int, hi as int);
        assert(sub[0] == s@[lo as int]);
        assert(sub.last() == s@[hi - 1]);
        assert(sub.drop_last() == s@.subrange(lo as int, hi - 1));
        hi -= 1;
    }
    let mut r: Vec<char> = Vec::new();
    let mut k: usize = lo;
    while k < hi
        invariant
            lo <= k <= hi <= s.len(),
            r@ == s@.subrange(lo as int, k as int),
        decreases hi - k,
    {
        r.push(s[k]);
        k += 1;
        assert(r@ == s@.subrange(lo as int, k as int));
    }
    proof {
        let sub = s@.subrange(lo as int, hi as int);
        if lo < hi {
            assert(sub[0] == s@[lo as int]);
            assert(sub.last() == s@[hi - 1]);
        }
    }
    r
}

/// The lines of `s`, as `str::lines` yields them.
pub fn lines_of(s: &Vec<char>) -> (r: Vec<Vec<char>>)
    ensures
        r@.len() == text_lines(s@).len(),
        forall|i: int| 0 <= i < r@.len() ==> (#[trigger] r@[i])@ == text_lines(s@)[i],
{
    let pieces = split_chars(s, '\n');
    proof { lemma_split_nonempty(s@, '\n'); }
    let n = pieces.len();
    let kept: usize = if pieces[n - 1].len() == 0 { n - 1 } else { n };
    let mut r: Vec<Vec<char>> = Vec::new();
    let mut i: usize = 0;
    while i < kept
        invariant
            n == pieces.len() == split_on(s@, '\n').len(),
            forall|k: int| 0 <= k < n ==> (#[trigger] pieces@[k])@ == split_on(s@, '\n')[k],
            kept <= n,
            kept == text_lines(s@).len(),
            i <= kept,
            r@.len() == i,
            forall|k: int| 0 <= k < i ==> (#[trigger] r@[k])@ == text_lines(s@)[k],
        decreases kept - i,
    {
        let p = &pieces[i];
        let len = p.len();
        let mut line: Vec<char> = Vec::new();
        let cut: usize = if i + 1 < n && len > 0 && p[len - 1] == '\r' { len - 1 } else { len };
        let mut k: usize = 0;
        while k < cut
            invariant
                cut <= len == p.len(),
                k <= cut,
                line@ == p@.take(k as int),
            decreases cut - k,
        {
            line.push(p[k]);
            k += 1;
            assert(line@ == p@.take(k as int));
        }
        proof {
            let pv = split_on(s@, '\n');
            assert(p@ == pv[i as int]);
            if cut < len {
                assert(p@.take(cut as int) == p@.drop_last());
            } else {
                assert(p@.take(cut as int) == p@);
            }
            assert(line@ == text_lines(s@)[i as int]);
        }
        r.push(line);
        i += 1;
    }
    r
}

/// Appends the characters of `s`.
pub fn push_str(out: &mut Vec<char>, s: &str)
    ensures
        final(out)@ == old(out)@ + s@,
{
    let v = chars_of(s);
    push_all(out, &v);
}

/// Appends the characters of `v`.
pub fn push_all(out: &mut Vec<char>, v: &Vec<char>)
    ensures
        final(out)@ == old(out)@ + v@,
{
    let ghost start = out@;
    let mut i: usize = 0;
    while i < v.len()
        invariant
            i <= v.len(),
            out@ == start + v@.take(i as int),
        decreases v.len() - i,
    {
        out.push(v[i]);
        i += 1;
        assert(v@.take(i as int) == v@.take((i - 1) as int).push(v@[i - 1]));
    }
    assert(v@.take(v.len() as int) == v@);
}

/// The parts joined with `sep` between consecutive ones, as `[T]::join` gives it.
pub open spec fn joined(parts: Seq<Seq<char>>, sep: Seq<char>) -> Seq<char>
    decreases parts.len(),
{
    if parts.len() == 0 {
        Seq::empty()
    } else if parts.len() == 1 {
        parts[0]
    } else {
        joined(parts.drop_last(), sep) + sep + parts.last()
    }
}

/// The characters of each string.
pub open spec fn texts(v: Seq<String>) -> Seq<Seq<char>> {
    v.map_values(|s: String| s@)
}

/// Joins strings with a separator.
pub fn join_strings(parts: &Vec<String>, sep: &str) -> (r: String)
    ensures
        r@ == joined(texts(parts@), sep@),
{
    let mut out: Vec<char> = Vec::new();
    let mut i: usize = 0;
    while i < parts.len()
        invariant
            i <= parts.len(),
            out@ == joined(texts(parts@.take(i as int)), sep@),
        decreases parts.len() - i,
    {
        let ghost before = texts(parts@.take(i as int));
        assert(texts(parts@.take(i + 1)).drop_last() == before);
        assert(texts(parts@.take(i + 1)).last() == parts@[i as int]@);
        if i > 0 {
            push_str(&mut out, sep);
        }
        push_str(&mut out, parts[i].as_str());
        i += 1;
    }
    assert(parts@.take(parts.len() as int) == parts@);
    string_of(&out)
}

/// Appends `v` zero-padded to width `w`, the sign counting toward the width.
pub fn push_padded(out: &mut Vec<char>, v: i64, w: usize)
    requires
        w <= 4,
    ensures
        final(out)@ == old(out)@ + padded_int(v as int, w as nat),
{
    let mut digits: Vec<char> = Vec::new();
    let mag: u64 = if v < 0 { (-(v as i128)) as u64 } else { v as u64 };
    push_decimal(&mut digits, mag);
    let width: usize = if v < 0 { if w >= 1 { w - 1 } else { 0 } } else { w };
    if v < 0 {
        out.push('-');
    }
    let mut k: usize = digits.len();
    let ghost start = out@;
    while k < width
        invariant
            digits.len() <= k <= width || width <= digits.len() == k,
            out@ == start + Seq::new((k - digits.len()) as nat, |i: int| '0'),
        decreases width - k,
    {
        out.push('0');
        k += 1;
        assert(out@ == start + Seq::new((k - digits.len()) as nat, |i: int| '0'));
    }
    let ghost pad = out@;
    let mut i: usize = 0;
    while i < digits.len()
        invariant
            i <= digits.len(),
            out@ == pad + digits@.take(i as int),
        decreases digits.len() - i,
    {
        out.push(digits[i]);
        i += 1;
        assert(digits@.take(i as int) == digits@.take((i - 1) as int).push(digits@[i - 1]));
    }
    assert(digits@.take(digits.len() as int) == digits@);
    assert(final(out)@ == old(out)@ + padded_int(v as int, w as nat));
}

/// `needle` occurs in `hay`.
pub open spec fn has_text(hay: Seq<char>, needle: Seq<char>) -> bool {
    exists|k: int| 0 <= k && k + needle.len() <= hay.len() && #[trigger] hay.subrange(k, k + needle.len()) == needle
}

pub proof fn lemma_has_text_middle(a: Seq<char>, needle: Seq<char>, b: Seq<char>)
    ensures
        has_text(a + needle + b, needle),
{
    let hay = a + needle + b;
    assert(hay.subrange(a.len() as int, a.len() + needle.len() as int) == needle);
}

} // verus!
