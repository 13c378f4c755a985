//! Character-level helpers shared by the formatting and parsing modules.
use vstd::prelude::*;

verus! {

/// Appends one character to a string (std `String::push`).
#[verifier::external_body]
pub(crate) fn push_char(s: &mut String, c: char)
    ensures
        final(s)@ == old(s)@.push(c),
{
    s.push(c);
}

/// The characters of `s`, in order.
pub fn chars_of(s: &str) -> (v: Vec<char>)
    ensures
        v@ == s@,
{
    let mut v: Vec<char> = Vec::new();
    for c in it: s.chars()
        invariant
            v@ == it.seq().take(it.index() as int),
    {
        v.push(c);
    }
    v
}

/// The string made of the characters of `v`, in order.
pub fn string_of(v: &Vec<char>) -> (s: String)
    ensures
        s@ == v@,
{
    let mut s = String::new();
    for i in 0..v.len()
        invariant
            s@ == v@.take(i as int),
    {
        push_char(&mut s, v[i]);
        assert(v@.take(i + 1) == v@.take(i as int).push(v@[i as int]));
    }
    assert(v@.take(v.len() as int) == v@);
    s
}


/// Unicode `White_Space`, the property that `char::is_whitespace`, `str::trim`
/// and `str::split_whitespace` go by.
pub open spec fn is_ws(c: char) -> bool {
    ||| ('\u{9}' <= c && c <= '\u{d}')
    ||| c == ' '
    ||| c == '\u{85}'
    ||| c == '\u{a0}'
    ||| c == '\u{1680}'
    ||| ('\u{2000}' <= c && c <= '\u{200a}')
    ||| c == '\u{2028}'
    ||| c == '\u{2029}'
    ||| c == '\u{202f}'
    ||| c == '\u{205f}'
    ||| c == '\u{3000}'
}

/// Whether `c` is Unicode whitespace.
pub fn is_whitespace(c: char) -> (r: bool)
    ensures
        r == is_ws(c),
{
    ('\u{9}' <= c && c <= '\u{d}') || c == ' ' || c == '\u{85}' || c == '\u{a0}' || c
        == '\u{1680}' || ('\u{2000}' <= c && c <= '\u{200a}') || c == '\u{2028}' || c
        == '\u{2029}' || c == '\u{202f}' || c == '\u{205f}' || c == '\u{3000}'
}

/// `s` without its leading whitespace.
pub open spec fn trim_start(s: Seq<char>) -> Seq<char>
    decreases s.len(),
{
    if s.len() > 0 && is_ws(s[0]) {
        trim_start(s.drop_first())
    } else {
        s
    }
}

/// `s` without its trailing whitespace.
pub open spec fn trim_end(s: Seq<char>) -> Seq<char>
    decreases s.len(),
{
    if s.len() > 0 && is_ws(s.last()) {
        trim_end(s.drop_last())
    } else {
        s
    }
}

/// `s` without leading and trailing whitespace (`str::trim`).
pub open spec fn trim(s: Seq<char>) -> Seq<char> {
    trim_end(trim_start(s))
}

proof fn lemma_trim_start_skip(s: Seq<char>, i: int)
    requires
        0 <= i <= s.len(),
        forall|k: int| 0 <= k < i ==> is_ws(#[trigger] s[k]),
    ensures
        trim_start(s) == trim_start(s.skip(i)),
    decreases i,
{
    if i > 0 {
        assert(is_ws(s[0]));
        lemma_trim_start_skip(s.drop_first(), i - 1);
        assert(s.drop_first().skip(i - 1) == s.skip(i));
    } else {
        assert(s.skip(0) == s);
    }
}

proof fn lemma_trim_end_take(s: Seq<char>, j: int)
    requires
        0 <= j <= s.len(),
        forall|k: int| j <= k < s.len() ==> is_ws(#[trigger] s[k]),
    ensures
        trim_end(s) == trim_end(s.take(j)),
    decreases s.len() - j,
{
    if j < s.len() {
        assert(is_ws(s.last()));
        lemma_trim_end_take(s.drop_last(), j);
        assert(s.drop_last().take(j) == s.take(j));
    } else {
        assert(s.take(j) == s);
    }
}

/// The characters of `s` without leading and trailing whitespace (`str::trim`).
pub fn trimmed(s: &Vec<char>) -> (r: Vec<char>)
    ensures
        r@ == trim(s@),
{
    let n = s.len();
    let mut i: usize = 0;
    while i < n && is_whitespace(s[i])
        invariant
            0 <= i <= n == s@.len(),
            forall|k: int| 0 <= k < i ==> is_ws(#[trigger] s@[k]),
        decreases n - i,
    {
        i = i + 1;
    }
    proof {
        lemma_trim_start_skip(s@, i as int);
    }
    let mut j: usize = n;
    while j > i && is_whitespace(s[j - 1])
        invariant
            i <= j <= n == s@.len(),
            forall|k: int| j <= k < n ==> is_ws(#[trigger] s@[k]),
        decreases j,
    {
        j = j - 1;
    }
    let mut r: Vec<char> = Vec::new();
    let mut k: usize = i;
    while k < j
        invariant
            i <= k <= j <= n == s@.len(),
            r@ == s@.subrange(i as int, k as int),
        decreases j - k,
    {
        r.push(s[k]);
        k = k + 1;
    }
    proof {
        let t = s@.skip(i as int);
        // leading characters of `t` are not whitespace (if any)
        assert(i < n ==> !is_ws(t[0]));
        assert(trim_start(t) == t);
        assert forall|k2: int| j - i <= k2 < t.len() implies is_ws(#[trigger] t[k2]) by {
            assert(t[k2] == s@[k2 + i]);
        }
        lemma_trim_end_take(t, j - i);
        let u = t.take(j - i);
        assert(u == s@.subrange(i as int, j as int));
        if j > i {
            assert(u.last() == s@[j - 1]);
            assert(!is_ws(u.last()));
        }
        assert(trim_end(u) == u);
    }
    r
}

/// ASCII lower-casing of one character (`char::to_ascii_lowercase`).
pub open spec fn ascii_lower(c: char) -> char {
    if 'A' <= c && c <= 'Z' {
        ((c as u32) + 32) as char
    } else {
        c
    }
}

/// ASCII lower-casing of a string (`str::to_ascii_lowercase`).
pub open spec fn ascii_lowercase(s: Seq<char>) -> Seq<char> {
    s.map_values(|c: char| ascii_lower(c))
}

/// The characters of `s`, ASCII letters lower-cased.
pub fn to_ascii_lowercase(s: &Vec<char>) -> (r: Vec<char>)
    ensures
        r@ == ascii_lowercase(s@),
{
    let mut r: Vec<char> = Vec::new();
    for i in 0..s.len()
        invariant
            r@ == ascii_lowercase(s@.take(i as int)),
    {
        let c = s[i];
        let l = if 'A' <= c && c <= 'Z' {
            ((c as u8) + 32) as char
        } else {
            c
        };
        assert(l == ascii_lower(c));
        r.push(l);
        assert(s@.take(i + 1) == s@.take(i as int).push(c));
    }
    assert(s@.take(s.len() as int) == s@);
    r
}


/// The decimal digit character for `d` (`0 <= d < 10`).
pub open spec fn digit_char(d: int) -> char {
    (('0' as u32) + d) as char
}

/// The decimal notation of `n`, without sign or leading zeros (`u64::to_string`).
pub open spec fn decimal(n: nat) -> Seq<char>
    decreases n,
{
    if n < 10 {
        seq![digit_char(n as int)]
    } else {
        decimal(n / 10).push(digit_char((n % 10) as int))
    }
}

/// The decimal notation of `n`.
pub fn decimal_string(n: u64) -> (s: String)
    ensures
        s@ == decimal(n as nat),
{
    let mut digits: Vec<char> = Vec::new();
    let mut m: u64 = n;
    // `digits` holds the low digits of `n` in reverse order
    while m >= 10
        invariant
            decimal(n as nat) == decimal(m as nat) + digits@.reverse(),
        decreases m,
    {
        let c = (((m % 10) as u8 + 48) as char);
        assert(c == digit_char((m % 10) as int));
        let ghost before = digits@;
        digits.push(c);
        assert(digits@.reverse() == seq![c] + before.reverse());
        assert(decimal(m as nat) == decimal((m / 10) as nat).push(c));
        assert(decimal(m as nat) + before.reverse() == decimal((m / 10) as nat) + digits@.reverse());
        m = m / 10;
    }
    let c = ((m as u8 + 48) as char);
    assert(decimal(m as nat) == seq![c]);
    let ghost before = digits@;
    digits.push(c);
    assert(digits@.reverse() == seq![c] + before.reverse());
    assert(decimal(n as nat) == digits@.reverse());
    let mut s = String::new();
    let len = digits.len();
    let mut k: usize = len;
    while k > 0
        invariant
            k <= len == digits@.len(),
            s@ == digits@.reverse().take(len - k),
        decreases k,
    {
        k = k - 1;
        crate::text::push_char(&mut s, digits[k]);
        assert(digits@.reverse().take(len - k) == digits@.reverse().take(len - k - 1).push(
            digits@[k as int],
        ));
    }
    assert(digits@.reverse().take(len as int) == digits@.reverse());
    s
}

/// Whether `c` is an ASCII decimal digit.
pub open spec fn is_digit(c: char) -> bool {
    '0' <= c && c <= '9'
}

/// The value of a run of decimal digits.
pub open spec fn digits_value(d: Seq<char>) -> nat
    decreases d.len(),
{
    if d.len() == 0 {
        0
    } else {
        digits_value(d.drop_last()) * 10 + ((d.last() as u32) - ('0' as u32)) as nat
    }
}

/// The digits part of a number: `s` without one leading `+`.
pub open spec fn unsigned_part(s: Seq<char>) -> Seq<char> {
    if s.len() > 0 && s[0] == '+' {
        s.drop_first()
    } else {
        s
    }
}

/// Whether every character of `d` is an ASCII digit.
pub open spec fn all_digits(d: Seq<char>) -> bool {
    forall|i: int| 0 <= i < d.len() ==> is_digit(#[trigger] d[i])
}

/// What `str::parse::<u64>` gives: an optional `+`, then one or more ASCII
/// digits whose value fits in a `u64`; anything else is rejected.
pub open spec fn parse_u64(s: Seq<char>) -> Option<u64> {
    let d = unsigned_part(s);
    if d.len() > 0 && all_digits(d) && digits_value(d) <= u64::MAX {
        Some(digits_value(d) as u64)
    } else {
        None
    }
}

/// The decimal notation of `n` is a non-empty run of digits whose value is `n`.
proof fn lemma_decimal_digits(n: nat)
    ensures
        decimal(n).len() > 0,
        all_digits(decimal(n)),
        digits_value(decimal(n)) == n,
    decreases n,
{
    let k = (n % 10) as int;
    assert(('0' as u32) == 48);
    assert(0 <= k < 10);
    assert((digit_char(k) as u32) == 48 + k);
    if n < 10 {
        assert(decimal(n) == seq![digit_char(n as int)]);
        let one = seq![digit_char(n as int)];
        assert(one.drop_last() =~= Seq::<char>::empty());
        assert(digits_value(one.drop_last()) == 0);
        assert(one.last() == digit_char(k));
        assert(digits_value(one) == 0 * 10 + ((digit_char(k) as u32) - ('0' as u32)) as nat);
    } else {
        lemma_decimal_digits(n / 10);
        let d = decimal(n / 10);
        let c = digit_char((n % 10) as int);
        assert(decimal(n) == d.push(c));
        assert(d.push(c).drop_last() == d);
        assert(forall|i: int| 0 <= i < d.len() ==> d.push(c)[i] == d[i]);
        assert((n / 10) * 10 + n % 10 == n);
        assert(d.push(c).last() == c);
        assert(digits_value(d.push(c)) == digits_value(d) * 10 + ((c as u32) - ('0' as u32)) as nat);
        assert(digits_value(d) * 10 == (n / 10) * 10);
    }
}

/// Parsing the decimal notation of a `u64` gives the number back.
pub proof fn lemma_parse_decimal(n: u64)
    ensures
        parse_u64(decimal(n as nat)) == Some(n),
{
    lemma_decimal_digits(n as nat);
    let d = decimal(n as nat);
    assert(is_digit(d[0]));
    assert(unsigned_part(d) == d);
}

/// Parses a decimal `u64` as `str::parse::<u64>` does.
pub fn parse_decimal_u64(s: &str) -> (r: Option<u64>)
    ensures
        r == parse_u64(s@),
{
    let v = crate::text::chars_of(s);
    let start: usize = if v.len() > 0 && v[0] == '+' {
        1
    } else {
        0
    };
    let ghost d = unsigned_part(s@);
    assert(d == v@.skip(start as int));
    if start >= v.len() {
        return None;
    }
    let mut acc: u64 = 0;
    let mut i: usize = start;
    assert(d.take(0) == Seq::<char>::empty());
    while i < v.len()
        invariant
            start <= i <= v@.len(),
            v@ == s@,
            d == unsigned_part(s@),
            d == v@.skip(start as int),
            forall|k: int| 0 <= k < i - start ==> is_digit(#[trigger] d[k]),
            acc as nat == digits_value(d.take(i - start)),
        decreases v.len() - i,
    {
        let c = v[i];
        assert(c == d[i - start]);
        if !('0' <= c && c <= '9') {
            assert(!is_digit(d[i - start]));
            assert(0 <= i - start < d.len());
            assert(!all_digits(d));
            return None;
        }
        let digit = (c as u32) - ('0' as u32);
        assert(d.take(i - start + 1).drop_last() == d.take(i - start));
        if acc > (u64::MAX - digit as u64) / 10 {
            proof {
                assert(digits_value(d.take(i - start + 1)) > u64::MAX);
                if all_digits(d) {
                    lemma_digits_value_prefix(d, i - start + 1);
                }
            }
            return None;
        }
        acc = acc * 10 + digit as u64;
        i = i + 1;
    }
    assert(d.take(d.len() as int) == d);
    Some(acc)
}

/// A prefix of a digit run never has a larger value than the whole run.
proof fn lemma_digits_value_prefix(d: Seq<char>, n: int)
    requires
        0 <= n <= d.len(),
        all_digits(d),
    ensures
        digits_value(d.take(n)) <= digits_value(d),
    decreases d.len() - n,
{
    if n < d.len() {
        lemma_digits_value_prefix(d, n + 1);
        assert(d.take(n + 1).drop_last() == d.take(n));
        assert(is_digit(d[n]));
    } else {
        assert(d.take(n) == d);
    }
}


/// The string made of `v[lo..hi]`.
pub fn substring(v: &Vec<char>, lo: usize, hi: usize) -> (s: String)
    requires
        lo <= hi <= v@.len(),
    ensures
        s@ == v@.subrange(lo as int, hi as int),
{
    let mut s = String::new();
    let mut k: usize = lo;
    while k < hi
        invariant
            lo <= k <= hi <= v@.len(),
            s@ == v@.subrange(lo as int, k as int),
        decreases hi - k,
    {
        push_char(&mut s, v[k]);
        assert(v@.subrange(lo as int, k + 1) == v@.subrange(lo as int, k as int).push(v@[k as int]));
        k = k + 1;
    }
    s
}

/// Whether `p` occurs in `s` at index `i`.
pub open spec fn occurs_at(s: Seq<char>, p: Seq<char>, i: int) -> bool {
    0 <= i && i + p.len() <= s.len() && s.subrange(i, i + p.len()) == p
}

/// The first index at or after `i` where `p` occurs in `s` (`str::find`).
pub open spec fn find_from(s: Seq<char>, p: Seq<char>, i: int) -> Option<int>
    decreases s.len() + 1 - i,
{
    if i < 0 || i + p.len() > s.len() {
        None
    } else if occurs_at(s, p, i) {
        Some(i)
    } else {
        find_from(s, p, i + 1)
    }
}

/// `find_from` answers the least occurrence at or after `i`, and `None` only
/// when there is none.
pub proof fn lemma_find_from(s: Seq<char>, p: Seq<char>, i: int)
    requires
        0 <= i,
    ensures
        find_from(s, p, i) matches Some(k) ==> i <= k && occurs_at(s, p, k) && forall|j: int|
            i <= j < k ==> !occurs_at(s, p, j),
        find_from(s, p, i) is None ==> forall|j: int| i <= j ==> !occurs_at(s, p, j),
    decreases s.len() + 1 - i,
{
    if i + p.len() > s.len() {
    } else if occurs_at(s, p, i) {
    } else {
        lemma_find_from(s, p, i + 1);
    }
}

/// The first index at or after `from` where `p` occurs in `v`.
pub fn find_in(v: &Vec<char>, p: &Vec<char>, from: usize) -> (r: Option<usize>)
    requires
        from <= v@.len(),
    ensures
        r matches Some(k) ==> find_from(v@, p@, from as int) == Some(k as int),
        r is None ==> find_from(v@, p@, from as int) is None,
{
    let n = v.len();
    let m = p.len();
    if m > n {
        assert(find_from(v@, p@, from as int) is None);
        return None;
    }
    let mut i: usize = from;
    while i <= n - m
        invariant
            from <= i,
            m == p@.len(),
            n == v@.len(),
            m <= n,
            find_from(v@, p@, from as int) == find_from(v@, p@, i as int),
        decreases n - i,
    {
        let mut j: usize = 0;
        while j < m && v[i + j] == p[j]
            invariant
                j <= m,
                i + m <= n,
                m == p@.len(),
                n == v@.len(),
                forall|k: int| 0 <= k < j ==> v@[i + k] == p@[k],
            decreases m - j,
        {
            j = j + 1;
        }
        if j == m {
            assert(v@.subrange(i as int, i + m) == p@);
            return Some(i);
        }
        assert(v@.subrange(i as int, i + m)[j as int] != p@[j as int]);
        i = i + 1;
    }
    None
}


/// The length of the run of non-whitespace characters that starts `t`.
pub open spec fn word_len(t: Seq<char>) -> nat
    decreases t.len(),
{
    if t.len() == 0 || is_ws(t[0]) {
        0
    } else {
        1 + word_len(t.drop_first())
    }
}

/// `trim_start` keeps a suffix of its argument that starts with a non-space.
pub proof fn lemma_trim_start_len(s: Seq<char>)
    ensures
        trim_start(s).len() <= s.len(),
        trim_start(s).len() > 0 ==> !is_ws(trim_start(s)[0]),
        trim_start(s) == s.skip(s.len() - trim_start(s).len()),
    decreases s.len(),
{
    if s.len() > 0 && is_ws(s[0]) {
        lemma_trim_start_len(s.drop_first());
        assert(s.drop_first().skip(s.drop_first().len() - trim_start(s).len()) == s.skip(
            s.len() - trim_start(s).len(),
        ));
    } else {
        assert(s.skip(0) == s);
    }
}

/// A word starting with a non-space is non-empty and fits in its text.
pub proof fn lemma_word_len(t: Seq<char>)
    ensures
        word_len(t) <= t.len(),
        t.len() > 0 && !is_ws(t[0]) ==> word_len(t) > 0,
    decreases t.len(),
{
    if t.len() > 0 && !is_ws(t[0]) {
        lemma_word_len(t.drop_first());
    }
}

/// The whitespace-separated words of `s`, in order (`str::split_whitespace`).
pub open spec fn words(s: Seq<char>) -> Seq<Seq<char>>
    decreases s.len(),
{
    let t = trim_start(s);
    if t.len() == 0 {
        Seq::empty()
    } else {
        proof {
            lemma_trim_start_len(s);
            lemma_word_len(t);
        }
        seq![t.take(word_len(t) as int)] + words(t.skip(word_len(t) as int))
    }
}

proof fn lemma_words_skip_ws(s: Seq<char>, i: int)
    requires
        0 <= i < s.len(),
        is_ws(s[i]),
    ensures
        words(s.skip(i)) == words(s.skip(i + 1)),
{
    assert(s.skip(i).drop_first() == s.skip(i + 1));
    assert(trim_start(s.skip(i)) == trim_start(s.skip(i + 1)));
}

proof fn lemma_word_len_run(t: Seq<char>, w: int)
    requires
        0 <= w <= t.len(),
        forall|k: int| 0 <= k < w ==> !is_ws(#[trigger] t[k]),
        w == t.len() || is_ws(t[w]),
    ensures
        word_len(t) == w,
    decreases w,
{
    if w > 0 {
        lemma_word_len_run(t.drop_first(), w - 1);
    }
}

proof fn lemma_words_word(s: Seq<char>, i: int, j: int)
    requires
        0 <= i < j <= s.len(),
        forall|k: int| i <= k < j ==> !is_ws(#[trigger] s[k]),
        j == s.len() || is_ws(s[j]),
    ensures
        words(s.skip(i)) == seq![s.subrange(i, j)] + words(s.skip(j)),
{
    let t = s.skip(i);
    assert(!is_ws(t[0]));
    assert(trim_start(t) == t);
    assert forall|k: int| 0 <= k < j - i implies !is_ws(#[trigger] t[k]) by {
        assert(t[k] == s[i + k]);
    }
    if j < s.len() {
        assert(t[j - i] == s[j]);
    }
    lemma_word_len_run(t, j - i);
    assert(t.take(j - i) == s.subrange(i, j));
    assert(t.skip(j - i) == s.skip(j));
}

/// The whitespace-separated words of `s`, in order.
pub fn split_whitespace(s: &str) -> (r: Vec<String>)
    ensures
        r@.map_values(|w: String| w@) == words(s@),
{
    let v = chars_of(s);
    let n = v.len();
    let mut r: Vec<String> = Vec::new();
    let mut i: usize = 0;
    assert(v@.skip(0) == v@);
    while i < n
        invariant
            i <= n == v@.len(),
            v@ == s@,
            words(v@) == r@.map_values(|w: String| w@) + words(v@.skip(i as int)),
        decreases n - i,
    {
        if is_whitespace(v[i]) {
            proof {
                lemma_words_skip_ws(v@, i as int);
            }
            i = i + 1;
        } else {
            let mut j: usize = i;
            while j < n && !is_whitespace(v[j])
                invariant
                    i <= j <= n == v@.len(),
                    forall|k: int| i <= k < j ==> !is_ws(#[trigger] v@[k]),
                decreases n - j,
            {
                j = j + 1;
            }
            proof {
                lemma_words_word(v@, i as int, j as int);
            }
            let w = substring(&v, i, j);
            let ghost before = r@.map_values(|w: String| w@);
            r.push(w);
            assert(r@.map_values(|w: String| w@) == before.push(v@.subrange(i as int, j as int)));
            i = j;
        }
    }
    assert(v@.skip(n as int) == Seq::<char>::empty());
    assert(words(Seq::<char>::empty()) == Seq::<Seq<char>>::empty());
    r
}


/// When `p` first occurs at `m` (at or after `i`), `find_from` answers `m`;
/// when it never occurs, `None`.
pub proof fn lemma_find_from_first(s: Seq<char>, p: Seq<char>, i: int, m: int)
    requires
        0 <= i <= m,
        forall|j: int| i <= j < m ==> !occurs_at(s, p, j),
    ensures
        occurs_at(s, p, m) ==> find_from(s, p, i) == Some(m),
        m + p.len() > s.len() ==> find_from(s, p, i) is None,
    decreases m - i,
{
    if i < m {
        lemma_find_from_first(s, p, i + 1, m);
    }
}

/// The pieces of `s` between occurrences of the separator `c` (`str::split`).
pub open spec fn split_on(s: Seq<char>, c: char) -> Seq<Seq<char>>
    decreases s.len(),
{
    match find_from(s, seq![c], 0) {
        Some(k) => {
            proof {
                lemma_find_from(s, seq![c], 0);
            }
            seq![s.take(k)] + split_on(s.skip(k + 1), c)
        },
        None => seq![s],
    }
}

/// The pieces of `s` between `/` separators, in order (`str::split('/')`).
pub fn split_slash(s: &str) -> (r: Vec<String>)
    ensures
        r@.map_values(|w: String| w@) == split_on(s@, '/'),
{
    let v = chars_of(s);
    let n = v.len();
    let mut r: Vec<String> = Vec::new();
    let mut start: usize = 0;
    let mut i: usize = 0;
    let ghost sep = seq!['/'];
    assert(v@.skip(0) == v@);
    while i < n
        invariant
            start <= i <= n == v@.len(),
            v@ == s@,
            sep == seq!['/'],
            split_on(v@, '/') == r@.map_values(|w: String| w@) + split_on(
                v@.skip(start as int),
                '/',
            ),
            forall|j: int| start <= j < i ==> v@[j] != '/',
        decreases n - i,
    {
        if v[i] == '/' {
            proof {
                let t = v@.skip(start as int);
                assert forall|j: int| 0 <= j < i - start implies !occurs_at(t, sep, j) by {
                    assert(t.subrange(j, j + 1)[0] == v@[start + j]);
                }
                assert(t.subrange(i - start, i - start + 1) == sep);
                lemma_find_from_first(t, sep, 0, i - start);
                assert(t.take(i - start) == v@.subrange(start as int, i as int));
                assert(t.skip(i - start + 1) == v@.skip(i + 1));
            }
            let piece = substring(&v, start, i);
            let ghost before = r@.map_values(|w: String| w@);
            r.push(piece);
            assert(r@.map_values(|w: String| w@) == before.push(v@.subrange(start as int, i as int)));
            start = i + 1;
        }
        i = i + 1;
    }
    proof {
        let t = v@.skip(start as int);
        assert forall|j: int| 0 <= j < n - start implies !occurs_at(t, sep, j) by {
            assert(t.subrange(j, j + 1)[0] == v@[start + j]);
        }
        lemma_find_from_first(t, sep, 0, n - start);
        assert(t == v@.subrange(start as int, n as int));
    }
    let last = substring(&v, start, n);
    let ghost before = r@.map_values(|w: String| w@);
    r.push(last);
    assert(r@.map_values(|w: String| w@) == before.push(v@.subrange(start as int, n as int)));
    r
}

} // verus!
