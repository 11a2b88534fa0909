//! Character-level text utilities: the model of a string is its `Seq<char>`.
use vstd::prelude::*;

verus! {

broadcast use vstd::string::group_string_axioms;

// ---------------------------------------------------------------------------
// Conversions between `str`/`String` and `Vec<char>`
// ---------------------------------------------------------------------------

/// The characters of `s`, in order.
pub fn chars_of(s: &str) -> (v: Vec<char>)
    ensures
        v@ == s@,
{
    let mut v: Vec<char> = Vec::new();
    for c in it: s.chars()
        invariant
            v@ == it.seq().take(it.index() as int),
            it.seq() == s@,
    {
        v.push(c);
    }
    v
}

/// Appends one character to a `String` (`String::push`).
#[verifier::external_body]
pub(crate) fn push_char(s: &mut String, c: char)
    ensures
        final(s)@ == old(s)@.push(c),
{
    s.push(c);
}

/// Appends the characters of `v` to `s`.
pub fn push_chars(s: &mut String, v: &Vec<char>)
    ensures
        final(s)@ == old(s)@ + v@,
{
    let ghost start = s@;
    for i in 0..v.len()
        invariant
            s@ == start + v@.take(i as int),
    {
        push_char(s, v[i]);
        assert(v@.take(i + 1) =~= v@.take(i as int).push(v@[i as int]));
    }
    assert(v@.take(v.len() as int) =~= v@);
}

/// A `String` holding exactly the characters of `v`.
pub fn string_of(v: &Vec<char>) -> (s: String)
    ensures
        s@ == v@,
{
    let mut s = String::new();
    push_chars(&mut s, v);
    assert(Seq::<char>::empty() + v@ =~= v@);
    s
}

/// A copy of `v[lo..hi]`.
pub fn subvec(v: &Vec<char>, lo: usize, hi: usize) -> (r: Vec<char>)
    requires
        lo <= hi <= v.len(),
    ensures
        r@ == v@.subrange(lo as int, hi as int),
{
    let mut r: Vec<char> = Vec::new();
    let mut i = lo;
    while i < hi
        invariant
            lo <= i <= hi <= v.len(),
            r@ == v@.subrange(lo as int, i as int),
        decreases hi - i,
    {
        r.push(v[i]);
        assert(v@.subrange(lo as int, i + 1) =~= v@.subrange(lo as int, i as int).push(v@[i as int]));
        i += 1;
    }
    r
}

/// Appends the characters of `b` to `a`.
pub fn extend_chars(a: &mut Vec<char>, b: &Vec<char>)
    ensures
        final(a)@ == old(a)@ + b@,
{
    let ghost start = a@;
    for i in 0..b.len()
        invariant
            a@ == start + b@.take(i as int),
    {
        a.push(b[i]);
        assert(b@.take(i + 1) =~= b@.take(i as int).push(b@[i as int]));
    }
    assert(b@.take(b.len() as int) =~= b@);
}

/// Whether two character vectors hold the same characters.
pub fn chars_eq(a: &Vec<char>, b: &Vec<char>) -> (r: bool)
    ensures
        r == (a@ == b@),
{
    if a.len() != b.len() {
        return false;
    }
    for i in 0..a.len()
        invariant
            a.len() == b.len(),
            forall|j: int| 0 <= j < i ==> a@[j] == b@[j],
    {
        if a[i] != b[i] {
            return false;
        }
    }
    assert(a@ =~= b@);
    true
}

// ---------------------------------------------------------------------------
// Whitespace and trimming
// ---------------------------------------------------------------------------

/// The Unicode `White_Space` property, which `char::is_whitespace` tests.
pub open spec fn is_ws(c: char) -> bool {
    let u = c as u32;
    ||| 0x09 <= u <= 0x0D
    ||| u == 0x20
    ||| u == 0x85
    ||| u == 0xA0
    ||| u == 0x1680
    ||| 0x2000 <= u <= 0x200A
    ||| u == 0x2028
    ||| u == 0x2029
    ||| u == 0x202F
    ||| u == 0x205F
    ||| u == 0x3000
}

pub fn is_whitespace(c: char) -> (r: bool)
    ensures
        r == is_ws(c),
{
    let u = c as u32;
    (0x09 <= u && u <= 0x0D) || u == 0x20 || u == 0x85 || u == 0xA0 || u == 0x1680 || (0x2000
        <= u && u <= 0x200A) || u == 0x2028 || u == 0x2029 || u == 0x202F || u == 0x205F || u
        == 0x3000
}

/// `s` without its leading whitespace.
pub open spec fn trim_start(s: Seq<char>) -> Seq<char>
    decreases s.len(),
{
    if s.len() > 0 && is_ws(s[0]) {
        trim_start(s.drop_first())
    } else {
        s
    }
}

/// `s` without its trailing whitespace.
pub open spec fn trim_end(s: Seq<char>) -> Seq<char>
    decreases s.len(),
{
    if s.len() > 0 && is_ws(s.last()) {
        trim_end(s.drop_last())
    } else {
        s
    }
}

/// `s` without leading and trailing whitespace (`str::trim`).
pub open spec fn trim(s: Seq<char>) -> Seq<char> {
    trim_end(trim_start(s))
}

proof fn lemma_trim_start_skip(s: Seq<char>, i: int)
    requires
        0 <= i <= s.len(),
        forall|j: int| 0 <= j < i ==> is_ws(#[trigger] s[j]),
    ensures
        trim_start(s) == trim_start(s.skip(i)),
    decreases i,
{
    if i > 0 {
        assert(is_ws(s[0]));
        lemma_trim_start_skip(s.drop_first(), i - 1);
        assert(s.drop_first().skip(i - 1) =~= s.skip(i));
    } else {
        assert(s.skip(0) =~= s);
    }
}

proof fn lemma_trim_end_take(s: Seq<char>, j: int)
    requires
        0 <= j <= s.len(),
        forall|k: int| j <= k < s.len() ==> is_ws(#[trigger] s[k]),
    ensures
        trim_end(s) == trim_end(s.take(j)),
    decreases s.len() - j,
{
    if j < s.len() {
        assert(is_ws(s.last()));
        lemma_trim_end_take(s.drop_last(), j);
        assert(s.drop_last().take(j) =~= s.take(j));
    } else {
        assert(s.take(j) =~= s);
    }
}

pub proof fn lemma_trim_start_len(s: Seq<char>)
    ensures
        trim_start(s).len() <= s.len(),
        trim_start(s).len() == 0 || !is_ws(trim_start(s)[0]),
        exists|i: int| 0 <= i <= s.len() && trim_start(s) == #[trigger] s.skip(i),
    decreases s.len(),
{
    if s.len() > 0 && is_ws(s[0]) {
        lemma_trim_start_len(s.drop_first());
        let i = choose|i: int| 0 <= i <= s.drop_first().len() && trim_start(s.drop_first()) == #[trigger] s.drop_first().skip(i);
        assert(s.drop_first().skip(i) =~= s.skip(i + 1));
    } else {
        assert(s.skip(0) =~= s);
    }
}

pub proof fn lemma_trim_end_len(s: Seq<char>)
    ensures
        trim_end(s).len() <= s.len(),
        trim_end(s).len() == 0 || !is_ws(trim_end(s).last()),
        trim_end(s) == s.take(trim_end(s).len() as int),
    decreases s.len(),
{
    if s.len() > 0 && is_ws(s.last()) {
        lemma_trim_end_len(s.drop_last());
        assert(s.drop_last().take(trim_end(s).len() as int) =~= s.take(trim_end(s).len() as int));
    } else {
        assert(s.take(s.len() as int) =~= s);
    }
}

/// Trimming never lengthens a text, and the result neither starts nor ends with whitespace.
pub proof fn lemma_trim_props(s: Seq<char>)
    ensures
        trim(s).len() <= s.len(),
        trim(s).len() == 0 || (!is_ws(trim(s)[0]) && !is_ws(trim(s).last())),
{
    lemma_trim_start_len(s);
    lemma_trim_end_len(trim_start(s));
    let t = trim_start(s);
    if trim(s).len() > 0 {
        assert(trim(s)[0] == t[0]);
    }
}

/// Trimming twice is trimming once.
pub proof fn lemma_trim_idempotent(s: Seq<char>)
    ensures
        trim(trim(s)) == trim(s),
{
    lemma_trim_props(s);
    let t = trim(s);
    assert(trim_start(t) == t);
    assert(trim_end(t) == t);
}

/// Bounds `(i, j)` with `v[i..j]` equal to `trim(v)`.
pub fn trim_range(v: &Vec<char>) -> (r: (usize, usize))
    ensures
        r.0 <= r.1 <= v.len(),
        v@.subrange(r.0 as int, r.1 as int) == trim(v@),
{
    let n = v.len();
    let mut i: usize = 0;
    while i < n && is_whitespace(v[i])
        invariant
            i <= n == v.len(),
            forall|k: int| 0 <= k < i ==> is_ws(#[trigger] v@[k]),
        decreases n - i,
    {
        i += 1;
    }
    let mut j: usize = n;
    while j > i && is_whitespace(v[j - 1])
        invariant
            i <= j <= n == v.len(),
            forall|k: int| j <= k < n ==> is_ws(#[trigger] v@[k]),
        decreases j - i,
    {
        j -= 1;
    }
    proof {
        lemma_trim_start_skip(v@, i as int);
        let t = v@.skip(i as int);
        assert(trim_start(t) == t);
        assert forall|k: int| j - i <= k < t.len() implies is_ws(#[trigger] t[k]) by {
            assert(t[k] == v@[k + i]);
        }
        lemma_trim_end_take(t, j - i);
        let u = t.take(j - i);
        assert(trim_end(u) == u);
        assert(u =~= v@.subrange(i as int, j as int));
    }
    (i, j)
}

/// `trim(v)` as a new vector.
pub fn trimmed(v: &Vec<char>) -> (r: Vec<char>)
    ensures
        r@ == trim(v@),
{
    let (i, j) = trim_range(v);
    subvec(v, i, j)
}

// ---------------------------------------------------------------------------
// Matching and searching
// ---------------------------------------------------------------------------

/// `pat` occurs in `s` at position `i`.
pub open spec fn matches_at(s: Seq<char>, pat: Seq<char>, i: int) -> bool {
    0 <= i && i + pat.len() <= s.len() && s.subrange(i, i + pat.len()) == pat
}

/// The first position at or after `k` where `pat` occurs in `s`.
pub open spec fn find_from(s: Seq<char>, pat: Seq<char>, k: int) -> Option<int>
    decreases s.len() + 1 - k,
{
    if k < 0 || k + pat.len() > s.len() {
        None
    } else if matches_at(s, pat, k) {
        Some(k)
    } else {
        find_from(s, pat, k + 1)
    }
}

/// The first position where `pat` occurs in `s` (`str::find`, counted in characters).
pub open spec fn find(s: Seq<char>, pat: Seq<char>) -> Option<int> {
    find_from(s, pat, 0)
}

pub open spec fn starts_with(s: Seq<char>, p: Seq<char>) -> bool {
    matches_at(s, p, 0)
}

pub open spec fn ends_with(s: Seq<char>, p: Seq<char>) -> bool {
    matches_at(s, p, s.len() - p.len())
}

/// What `find_from` returns is a match at or after `k`, and no match lies between.
pub proof fn lemma_find_from(s: Seq<char>, pat: Seq<char>, k: int)
    requires
        0 <= k,
    ensures
        find_from(s, pat, k) matches Some(i) ==> k <= i && matches_at(s, pat, i) && forall|j: int|
            k <= j < i ==> !#[trigger] matches_at(s, pat, j),
        find_from(s, pat, k) is None ==> forall|j: int| k <= j ==> !#[trigger] matches_at(s, pat, j),
    decreases s.len() + 1 - k,
{
    if k + pat.len() > s.len() {
    } else if matches_at(s, pat, k) {
    } else {
        lemma_find_from(s, pat, k + 1);
        assert forall|j: int| k <= j && !(k + 1 <= j) implies !#[trigger] matches_at(s, pat, j) by {
            assert(j == k);
        }
    }
}

/// Whether `pat` occurs in `v` at position `i`.
pub fn matches_at_exec(v: &Vec<char>, pat: &Vec<char>, i: usize) -> (r: bool)
    ensures
        r == matches_at(v@, pat@, i as int),
{
    if i > v.len() || pat.len() > v.len() - i {
        return false;
    }
    for k in 0..pat.len()
        invariant
            i + pat.len() <= v.len(),
            forall|m: int| 0 <= m < k ==> v@[i + m] == pat@[m],
    {
        if v[i + k] != pat[k] {
            assert(v@.subrange(i as int, i + pat.len())[k as int] != pat@[k as int]);
            return false;
        }
    }
    assert(v@.subrange(i as int, i + pat.len()) =~= pat@);
    true
}

/// The first position at or after `from` where `pat` occurs in `v`.
pub fn find_exec(v: &Vec<char>, pat: &Vec<char>, from: usize) -> (r: Option<usize>)
    ensures
        r matches Some(i) ==> find_from(v@, pat@, from as int) == Some(i as int),
        r is None ==> find_from(v@, pat@, from as int) is None,
{
    if pat.len() == 0 {
        if from <= v.len() {
            assert(v@.subrange(from as int, from as int) =~= pat@);
            return Some(from);
        }
        return None;
    }
    let mut k = from;
    while k <= v.len() && pat.len() <= v.len() - k
        invariant
            from <= k,
            pat.len() > 0,
            find_from(v@, pat@, from as int) == find_from(v@, pat@, k as int),
        decreases v.len() + 1 - k,
    {
        if matches_at_exec(v, pat, k) {
            return Some(k);
        }
        k += 1;
    }
    None
}

/// `find` over a whole vector.
pub fn find_in(v: &Vec<char>, pat: &Vec<char>) -> (r: Option<usize>)
    ensures
        r matches Some(i) ==> find(v@, pat@) == Some(i as int),
        r is None ==> find(v@, pat@) is None,
{
    find_exec(v, pat, 0)
}

pub fn starts_with_exec(v: &Vec<char>, p: &Vec<char>) -> (r: bool)
    ensures
        r == starts_with(v@, p@),
{
    matches_at_exec(v, p, 0)
}

pub fn ends_with_exec(v: &Vec<char>, p: &Vec<char>) -> (r: bool)
    ensures
        r == ends_with(v@, p@),
{
    if p.len() > v.len() {
        return false;
    }
    matches_at_exec(v, p, v.len() - p.len())
}

// ---------------------------------------------------------------------------
// Decimal numbers
// ---------------------------------------------------------------------------

pub open spec fn digit_char(d: int) -> char {
    if d == 0 {
        '0'
    } else if d == 1 {
        '1'
    } else if d == 2 {
        '2'
    } else if d == 3 {
        '3'
    } else if d == 4 {
        '4'
    } else if d == 5 {
        '5'
    } else if d == 6 {
        '6'
    } else if d == 7 {
        '7'
    } else if d == 8 {
        '8'
    } else {
        '9'
    }
}

fn digit_char_exec(d: usize) -> (c: char)
    requires
        d < 10,
    ensures
        c == digit_char(d as int),
{
    if d == 0 {
        '0'
    } else if d == 1 {
        '1'
    } else if d == 2 {
        '2'
    } else if d == 3 {
        '3'
    } else if d == 4 {
        '4'
    } else if d == 5 {
        '5'
    } else if d == 6 {
        '6'
    } else if d == 7 {
        '7'
    } else if d == 8 {
        '8'
    } else {
        '9'
    }
}

/// The decimal digits of `n`, without leading zeros (`n.to_string()`).
pub open spec fn decimal(n: nat) -> Seq<char>
    decreases n,
{
    if n < 10 {
        seq![digit_char(n as int)]
    } else {
        decimal(n / 10).push(digit_char((n % 10) as int))
    }
}

/// `s` padded on the left with `'0'` to at least `width` characters (`{:0width}`).
pub open spec fn zero_pad(s: Seq<char>, width: nat) -> Seq<char> {
    if s.len() < width {
        Seq::new((width - s.len()) as nat, |i: int| '0') + s
    } else {
        s
    }
}

/// The decimal representation of `n`.
pub fn decimal_exec(n: usize) -> (v: Vec<char>)
    ensures
        v@ == decimal(n as nat),
    decreases n,
{
    if n < 10 {
        let mut v: Vec<char> = Vec::new();
        v.push(digit_char_exec(n));
        assert(v@ =~= seq![digit_char(n as int)]);
        v
    } else {
        let mut v = decimal_exec(n / 10);
        v.push(digit_char_exec(n % 10));
        v
    }
}

/// The decimal representation of `n`, padded with zeros to at least `width` characters.
pub fn zero_padded_decimal(n: usize, width: usize) -> (v: Vec<char>)
    ensures
        v@ == zero_pad(decimal(n as nat), width as nat),
{
    let d = decimal_exec(n);
    if d.len() < width {
        let mut v: Vec<char> = Vec::new();
        let pad = width - d.len();
        for i in 0..pad
            invariant
                pad == width - d.len(),
                v@ == Seq::new(i as nat, |k: int| '0'),
        {
            v.push('0');
            assert(v@ =~= Seq::new((i + 1) as nat, |k: int| '0'));
        }
        extend_chars(&mut v, &d);
        v
    } else {
        d
    }
}

pub open spec fn is_digit(c: char) -> bool {
    '0' <= c <= '9'
}

pub open spec fn digit_value(c: char) -> int {
    (c as u32) - ('0' as u32)
}

/// The number that a run of decimal digits spells.
pub open spec fn digits_value(s: Seq<char>) -> int
    decreases s.len(),
{
    if s.len() == 0 {
        0
    } else {
        digits_value(s.drop_last()) * 10 + digit_value(s.last())
    }
}

pub open spec fn all_digits(s: Seq<char>) -> bool {
    forall|i: int| 0 <= i < s.len() ==> is_digit(#[trigger] s[i])
}

/// `str::parse::<usize>`: an optional `+`, then one or more ASCII digits whose value fits.
pub open spec fn parse_usize(s: Seq<char>) -> Option<usize> {
    let d = if s.len() > 0 && s[0] == '+' {
        s.drop_first()
    } else {
        s
    };
    if d.len() == 0 || !all_digits(d) || digits_value(d) > usize::MAX {
        None
    } else {
        Some(digits_value(d) as usize)
    }
}

proof fn lemma_digits_value_prefix(s: Seq<char>, k: int)
    requires
        all_digits(s),
        0 <= k <= s.len(),
    ensures
        0 <= digits_value(s.take(k)) <= digits_value(s),
    decreases s.len() - k,
{
    if k < s.len() {
        lemma_digits_value_prefix(s, k + 1);
        assert(s.take(k + 1).drop_last() =~= s.take(k));
        assert(is_digit(s[k]));
    } else {
        assert(s.take(k) =~= s);
        lemma_digits_value_nonneg(s);
    }
}

proof fn lemma_digits_value_nonneg(s: Seq<char>)
    requires
        all_digits(s),
    ensures
        0 <= digits_value(s),
    decreases s.len(),
{
    if s.len() > 0 {
        assert(all_digits(s.drop_last())) by {
            assert forall|i: int| 0 <= i < s.drop_last().len() implies is_digit(
                #[trigger] s.drop_last()[i],
            ) by {
                assert(s.drop_last()[i] == s[i]);
            }
        }
        lemma_digits_value_nonneg(s.drop_last());
        assert(is_digit(s[s.len() - 1]));
    }
}

proof fn lemma_digit_char(d: int)
    requires
        0 <= d < 10,
    ensures
        is_digit(digit_char(d)),
        digit_value(digit_char(d)) == d,
{
}

proof fn lemma_zeros_value(k: nat)
    ensures
        all_digits(Seq::new(k, |i: int| '0')),
        digits_value(Seq::new(k, |i: int| '0')) == 0,
    decreases k,
{
    let z = Seq::new(k, |i: int| '0');
    if k > 0 {
        lemma_zeros_value((k - 1) as nat);
        assert(z.drop_last() =~= Seq::new((k - 1) as nat, |i: int| '0'));
    }
}

proof fn lemma_prefix_value(z: Seq<char>, s: Seq<char>)
    requires
        all_digits(z),
        all_digits(s),
        digits_value(z) == 0,
    ensures
        all_digits(z + s),
        digits_value(z + s) == digits_value(s),
    decreases s.len(),
{
    if s.len() == 0 {
        assert(z + s =~= z);
    } else {
        lemma_prefix_value(z, s.drop_last());
        assert((z + s).drop_last() =~= z + s.drop_last());
        assert((z + s).last() == s.last());
        assert(all_digits(s.drop_last())) by {
            assert forall|i: int| 0 <= i < s.drop_last().len() implies is_digit(#[trigger] s.drop_last()[i]) by {
                assert(s.drop_last()[i] == s[i]);
            }
        }
    }
    assert forall|i: int| 0 <= i < (z + s).len() implies is_digit(#[trigger] (z + s)[i]) by {
        if i < z.len() {
            assert((z + s)[i] == z[i]);
        } else {
            assert((z + s)[i] == s[i - z.len()]);
        }
    }
}

/// The decimal representation of `n` spells `n`: it is a non-empty run of digits of value `n`.
pub proof fn lemma_decimal_value(n: nat)
    ensures
        decimal(n).len() >= 1,
        all_digits(decimal(n)),
        digits_value(decimal(n)) == n,
    decreases n,
{
    if n < 10 {
        lemma_digit_char(n as int);
        assert(decimal(n).drop_last() =~= Seq::<char>::empty());
        assert(decimal(n).last() == digit_char(n as int));
        assert(digits_value(decimal(n).drop_last()) == 0);
    } else {
        lemma_decimal_value(n / 10);
        lemma_digit_char((n % 10) as int);
        let d = decimal(n);
        assert(d.drop_last() == decimal(n / 10));
        assert(d.last() == digit_char((n % 10) as int));
        assert((n / 10) * 10 + n % 10 == n) by (nonlinear_arith);
        assert forall|i: int| 0 <= i < d.len() implies is_digit(#[trigger] d[i]) by {
            if i < d.len() - 1 {
                assert(d[i] == decimal(n / 10)[i]);
            }
        }
    }
}

/// Zero padding keeps the value that the digits spell.
pub proof fn lemma_zero_pad_value(n: nat, width: nat)
    ensures
        all_digits(zero_pad(decimal(n), width)),
        digits_value(zero_pad(decimal(n), width)) == n,
{
    lemma_decimal_value(n);
    let d = decimal(n);
    if d.len() < width {
        lemma_zeros_value((width - d.len()) as nat);
        lemma_prefix_value(Seq::new((width - d.len()) as nat, |i: int| '0'), d);
    }
}

/// Law: reading back the decimal representation of a number gives the number.
pub proof fn lemma_parse_decimal(n: usize)
    ensures
        parse_usize(decimal(n as nat)) == Some(n),
{
    lemma_decimal_value(n as nat);
    let d = decimal(n as nat);
    assert(is_digit(d[0]));
}

/// Parses a decimal `usize` as `str::parse::<usize>` does.
pub fn parse_usize_exec(v: &Vec<char>) -> (r: Option<usize>)
    ensures
        r == parse_usize(v@),
{
    let start: usize = if v.len() > 0 && v[0] == '+' {
        1
    } else {
        0
    };
    let ghost d = if v@.len() > 0 && v@[0] == '+' {
        v@.drop_first()
    } else {
        v@
    };
    assert(d =~= v@.skip(start as int));
    if start == v.len() {
        return None;
    }
    let mut acc: usize = 0;
    let mut i = start;
    while i < v.len()
        invariant
            start <= i <= v.len(),
            start < v.len(),
            d == v@.skip(start as int),
            d == (if v@.len() > 0 && v@[0] == '+' {
                v@.drop_first()
            } else {
                v@
            }),
            all_digits(d.take(i - start)),
            acc == digits_value(d.take(i - start)),
        decreases v.len() - i,
    {
        let c = v[i];
        assert(d[i - start] == c);
        if !('0' <= c && c <= '9') {
            assert(!is_digit(d[i - start]));
            assert(!all_digits(d));
            return None;
        }
        let dv = (c as u32 - '0' as u32) as u128;
        let next: u128 = (acc as u128) * 10 + dv;
        assert(d.take(i - start + 1).drop_last() =~= d.take(i - start));
        assert(d.take(i - start + 1).last() == c);
        assert(digit_value(c) == dv);
        assert(digits_value(d.take(i - start + 1)) == next);
        assert(all_digits(d.take(i - start + 1))) by {
            assert forall|k: int| 0 <= k < d.take(i - start + 1).len() implies is_digit(
                #[trigger] d.take(i - start + 1)[k],
            ) by {
                if k < i - start {
                    assert(d.take(i - start + 1)[k] == d.take(i - start)[k]);
                }
            }
        }
        if next > usize::MAX as u128 {
            proof {
                if all_digits(d) {
                    lemma_digits_value_prefix(d, i - start + 1);
                }
            }
            return None;
        }
        acc = next as usize;
        i += 1;
    }
    assert(d.take(i - start) =~= d);
    Some(acc)
}


// ---------------------------------------------------------------------------
// Lines and words
// ---------------------------------------------------------------------------

/// The end of the line that starts at `start`: the position of the next `'\n'`, or the end.
pub open spec fn line_end(s: Seq<char>, start: int) -> int {
    match find_from(s, seq!['\n'], start) {
        Some(e) => e,
        None => s.len() as int,
    }
}

/// The first line at or after position `start` that begins with `p`.
/// Lines are separated by `'\n'`; for a non-empty `p` this is the line that
/// `str::lines` followed by `find(|l| l.starts_with(p))` yields, up to a
/// trailing `'\r'` kept in the line.
pub open spec fn first_prefixed_line_from(s: Seq<char>, p: Seq<char>, start: int) -> Option<
    Seq<char>,
>
    decreases s.len() + 1 - start,
{
    if start < 0 || start > s.len() {
        None
    } else {
        let e = line_end(s, start);
        proof {
            lemma_find_from(s, seq!['\n'], start);
        }
        if starts_with(s.subrange(start, e), p) {
            Some(s.subrange(start, e))
        } else if e < s.len() {
            first_prefixed_line_from(s, p, e + 1)
        } else {
            None
        }
    }
}

pub open spec fn first_prefixed_line(s: Seq<char>, p: Seq<char>) -> Option<Seq<char>> {
    first_prefixed_line_from(s, p, 0)
}

pub proof fn lemma_line_end(s: Seq<char>, start: int)
    requires
        0 <= start <= s.len(),
    ensures
        start <= line_end(s, start) <= s.len(),
        line_end(s, start) < s.len() ==> s[line_end(s, start)] == '\n',
{
    lemma_find_from(s, seq!['\n'], start);
    if let Some(e) = find_from(s, seq!['\n'], start) {
        assert(s.subrange(e, e + 1)[0] == s[e]);
    }
}

/// The line found begins with the prefix.
pub proof fn lemma_first_prefixed_line(s: Seq<char>, p: Seq<char>, start: int)
    ensures
        first_prefixed_line_from(s, p, start) matches Some(l) ==> starts_with(l, p),
    decreases s.len() + 1 - start,
{
    if 0 <= start <= s.len() {
        lemma_line_end(s, start);
        let e = line_end(s, start);
        if !starts_with(s.subrange(start, e), p) && e < s.len() {
            lemma_first_prefixed_line(s, p, e + 1);
        }
    }
}

proof fn lemma_prefixed_line_from(
    pre: Seq<char>,
    line: Seq<char>,
    tail: Seq<char>,
    p: Seq<char>,
    start: int,
)
    requires
        p.len() > 0,
        pre.len() == 0 || pre.last() == '\n',
        !pre.contains(p[0]),
        starts_with(line, p),
        !line.contains('\n'),
        tail.len() == 0 || tail[0] == '\n',
        0 <= start <= pre.len(),
    ensures
        first_prefixed_line_from(pre + line + tail, p, start) == Some(line),
    decreases pre.len() - start,
{
    let s = pre + line + tail;
    let nl = seq!['\n'];
    lemma_line_end(s, start);
    lemma_find_from(s, nl, start);
    let e = line_end(s, start);
    if start < pre.len() {
        let q = pre.len() - 1;
        assert(s[q] == pre[q]);
        assert(s.subrange(q, q + 1) =~= nl);
        assert(matches_at(s, nl, q));
        assert(e <= q);
        if starts_with(s.subrange(start, e), p) {
            assert(s.subrange(start, e)[0] == s[start]);
            assert(s[start] == pre[start]);
            assert(pre.contains(p[0]));
        }
        assert(s[e] == pre[e]);
        lemma_prefixed_line_from(pre, line, tail, p, e + 1);
    } else {
        let l = (pre.len() + line.len()) as int;
        assert forall|j: int| start <= j < l implies !#[trigger] matches_at(s, nl, j) by {
            if matches_at(s, nl, j) {
                assert(s.subrange(j, j + 1)[0] == s[j]);
                assert(s[j] == line[j - pre.len()]);
                assert(line.contains('\n'));
            }
        }
        if tail.len() > 0 {
            assert(s[l] == tail[0]);
            assert(s.subrange(l, l + 1) =~= nl);
            assert(matches_at(s, nl, l));
        }
        assert(e == l);
        assert(s.subrange(start, e) =~= line);
    }
}

/// Law: a line that begins with `p` is the one found, on whichever line of the
/// text it stands, when no earlier line can begin with `p` (the text before it
/// holds no character equal to the first of `p`).
pub proof fn lemma_first_prefixed_line_at(pre: Seq<char>, line: Seq<char>, tail: Seq<char>, p: Seq<char>)
    requires
        p.len() > 0,
        pre.len() == 0 || pre.last() == '\n',
        !pre.contains(p[0]),
        starts_with(line, p),
        !line.contains('\n'),
        tail.len() == 0 || tail[0] == '\n',
    ensures
        first_prefixed_line(pre + line + tail, p) == Some(line),
{
    lemma_prefixed_line_from(pre, line, tail, p, 0);
}

/// The first line of `v` that begins with `p`.
pub fn first_prefixed_line_exec(v: &Vec<char>, p: &Vec<char>) -> (r: Option<Vec<char>>)
    ensures
        r matches Some(l) ==> first_prefixed_line(v@, p@) == Some(l@),
        r is None ==> first_prefixed_line(v@, p@) is None,
{
    let mut nl: Vec<char> = Vec::new();
    nl.push('\n');
    assert(nl@ =~= seq!['\n']);
    let mut start: usize = 0;
    loop
        invariant
            start <= v.len(),
            nl@ == seq!['\n'],
            first_prefixed_line(v@, p@) == first_prefixed_line_from(v@, p@, start as int),
        decreases v.len() - start,
    {
        proof {
            lemma_line_end(v@, start as int);
        }
        let e = match find_exec(v, &nl, start) {
            Some(e) => e,
            None => v.len(),
        };
        let line = subvec(v, start, e);
        if starts_with_exec(&line, p) {
            return Some(line);
        }
        if e < v.len() {
            start = e + 1;
        } else {
            return None;
        }
    }
}

/// The trailing run of non-whitespace characters of `t`.
pub open spec fn word_tail(t: Seq<char>) -> Seq<char>
    decreases t.len(),
{
    if t.len() == 0 || is_ws(t.last()) {
        Seq::empty()
    } else {
        word_tail(t.drop_last()).push(t.last())
    }
}

/// The last whitespace-separated word of `s` (`s.split_whitespace().last()`).
pub open spec fn last_word(s: Seq<char>) -> Option<Seq<char>> {
    let t = trim_end(s);
    if t.len() == 0 {
        None
    } else {
        Some(word_tail(t))
    }
}

pub proof fn lemma_word_tail(t: Seq<char>, k: int)
    requires
        0 <= k <= t.len(),
        k == 0 || is_ws(t[k - 1]),
        forall|m: int| k <= m < t.len() ==> !is_ws(#[trigger] t[m]),
    ensures
        word_tail(t) == t.skip(k),
    decreases t.len(),
{
    if t.len() == k {
        assert(t.skip(k) =~= Seq::<char>::empty());
    } else {
        assert(!is_ws(t[t.len() - 1]));
        lemma_word_tail(t.drop_last(), k);
        assert(t.drop_last().skip(k).push(t.last()) =~= t.skip(k));
    }
}

/// The last whitespace-separated word of `v`.
pub fn last_word_exec(v: &Vec<char>) -> (r: Option<Vec<char>>)
    ensures
        r matches Some(w) ==> last_word(v@) == Some(w@),
        r is None ==> last_word(v@) is None,
{
    let n = v.len();
    let mut j: usize = n;
    while j > 0 && is_whitespace(v[j - 1])
        invariant
            j <= n == v.len(),
            forall|k: int| j <= k < n ==> is_ws(#[trigger] v@[k]),
        decreases j,
    {
        j -= 1;
    }
    proof {
        lemma_trim_end_take(v@, j as int);
        assert(trim_end(v@.take(j as int)) == v@.take(j as int));
    }
    if j == 0 {
        return None;
    }
    let mut k: usize = j;
    while k > 0 && !is_whitespace(v[k - 1])
        invariant
            k <= j <= n == v.len(),
            forall|m: int| k <= m < j ==> !is_ws(#[trigger] v@[m]),
        decreases k,
    {
        k -= 1;
    }
    proof {
        let t = v@.take(j as int);
        assert forall|m: int| k <= m < t.len() implies !is_ws(#[trigger] t[m]) by {
            assert(t[m] == v@[m]);
        }
        if k > 0 {
            assert(t[k - 1] == v@[k - 1]);
        }
        lemma_word_tail(t, k as int);
        assert(t.skip(k as int) =~= v@.subrange(k as int, j as int));
    }
    Some(subvec(v, k, j))
}


// ---------------------------------------------------------------------------
// Joining
// ---------------------------------------------------------------------------

/// The parts with `sep` between each two (`[..].join(sep)`).
pub open spec fn join(parts: Seq<Seq<char>>, sep: Seq<char>) -> Seq<char>
    decreases parts.len(),
{
    if parts.len() == 0 {
        Seq::empty()
    } else if parts.len() == 1 {
        parts[0]
    } else {
        join(parts.drop_last(), sep) + sep + parts.last()
    }
}

/// The views of a sequence of strings.
pub open spec fn string_views(parts: Seq<String>) -> Seq<Seq<char>> {
    parts.map_values(|s: String| s@)
}

/// Joins strings with a separator.
pub fn join_strings(parts: &Vec<String>, sep: &str) -> (r: String)
    ensures
        r@ == join(string_views(parts@), sep@),
{
    let mut r = String::new();
    let ghost views = string_views(parts@);
    for i in 0..parts.len()
        invariant
            views == string_views(parts@),
            r@ == join(views.take(i as int), sep@),
    {
        if i > 0 {
            r.append(sep);
        }
        r.append(parts[i].as_str());
        assert(views.take(i + 1).drop_last() =~= views.take(i as int));
        assert(views.take(i + 1).last() == parts@[i as int]@);
        proof {
            if i == 0 {
                assert(views.take(1)[0] == parts@[0]@);
                assert(r@ =~= parts@[0]@);
            }
        }
    }
    assert(views.take(parts.len() as int) =~= views);
    r
}

} // verus!
