//! Character-level helpers on which the rest of the library builds.
use vstd::prelude::*;
use vstd::string::*;

verus! {

/// Copies the characters of `s` into a vector.
pub fn chars_of(s: &str) -> (out: Vec<char>)
    ensures
        out@ == s@,
{
    let mut out: Vec<char> = Vec::new();
    for c in it: s.chars()
        invariant
            out@ == it.seq().take(it.index() as int),
    {
        out.push(c);
    }
    out
}


/// `String::push`: appends one character to the end of the string.
#[verifier::external_body]
pub(crate) fn push_char(s: &mut String, c: char)
    ensures
        final(s)@ == old(s)@.push(c),
{
    s.push(c);
}

/// Builds a string holding exactly the given characters.
pub fn string_from_chars(v: &Vec<char>) -> (out: String)
    ensures
        out@ == v@,
{
    let mut out = String::new();
    let mut i: usize = 0;
    while i < v.len()
        invariant
            i <= v.len(),
            out@ == v@.take(i as int),
        decreases v.len() - i,
    {
        push_char(&mut out, v[i]);
        assert(v@.take(i + 1) == v@.take(i as int).push(v@[i as int]));
        i += 1;
    }
    assert(v@.take(v.len() as int) == v@);
    out
}

/// Appends the characters of `t` to `s`.
pub fn push_str(s: &mut String, t: &str)
    ensures
        final(s)@ == old(s)@ + t@,
{
    s.append(t);
}

/// Copies a list of strings.
pub fn copy_strings(v: &Vec<String>) -> (out: Vec<String>)
    ensures
        out@ == v@,
{
    let mut out: Vec<String> = Vec::new();
    let mut i: usize = 0;
    while i < v.len()
        invariant
            i <= v.len(),
            out@ == v@.take(i as int),
        decreases v.len() - i,
    {
        out.push(v[i].clone());
        assert(v@.take(i + 1) == v@.take(i as int).push(v@[i as int]));
        i += 1;
    }
    assert(v@.take(v.len() as int) == v@);
    out
}


/// Builds a string from the characters `v[lo..hi]`.
pub fn string_from_range(v: &Vec<char>, lo: usize, hi: usize) -> (out: String)
    requires
        lo <= hi <= v.len(),
    ensures
        out@ == v@.subrange(lo as int, hi as int),
{
    let mut out = String::new();
    let mut i: usize = lo;
    while i < hi
        invariant
            lo <= i <= hi <= v.len(),
            out@ == v@.subrange(lo as int, i as int),
        decreases hi - i,
    {
        push_char(&mut out, v[i]);
        assert(v@.subrange(lo as int, i + 1) == v@.subrange(lo as int, i as int).push(v@[i as int]));
        i += 1;
    }
    out
}

/// The position of the last occurrence of `c` in `s`, or -1.
pub open spec fn last_index_of(s: Seq<char>, c: char) -> int
    decreases s.len(),
{
    if s.len() == 0 {
        -1
    } else if s.last() == c {
        s.len() - 1
    } else {
        last_index_of(s.drop_last(), c)
    }
}

/// The position of the first occurrence of `c` in `s`, or -1.
pub open spec fn first_index_of(s: Seq<char>, c: char) -> int
    decreases s.len(),
{
    if s.len() == 0 {
        -1
    } else if s[0] == c {
        0
    } else {
        let r = first_index_of(s.drop_first(), c);
        if r < 0 { -1 } else { r + 1 }
    }
}

pub proof fn lemma_last_index_of(s: Seq<char>, c: char)
    ensures
        -1 <= last_index_of(s, c) < s.len(),
        last_index_of(s, c) >= 0 ==> s[last_index_of(s, c)] == c,
        forall|j: int| last_index_of(s, c) < j < s.len() ==> s[j] != c,
    decreases s.len(),
{
    if s.len() > 0 && s.last() != c {
        lemma_last_index_of(s.drop_last(), c);
        assert forall|j: int| last_index_of(s, c) < j < s.len() implies s[j] != c by {
            if j < s.len() - 1 {
                assert(s[j] == s.drop_last()[j]);
            }
        }
    }
}

pub proof fn lemma_first_index_of(s: Seq<char>, c: char)
    ensures
        -1 <= first_index_of(s, c) < s.len(),
        first_index_of(s, c) >= 0 ==> s[first_index_of(s, c)] == c,
        forall|j: int| 0 <= j < s.len() && (first_index_of(s, c) < 0 || j < first_index_of(s, c)) ==> s[j] != c,
    decreases s.len(),
{
    if s.len() > 0 && s[0] != c {
        lemma_first_index_of(s.drop_first(), c);
        assert forall|j: int| 0 <= j < s.len() && (first_index_of(s, c) < 0 || j < first_index_of(s, c)) implies s[j] != c by {
            if j > 0 {
                assert(s[j] == s.drop_first()[j - 1]);
            }
        }
    }
}

/// Finds the last occurrence of `c` in `v`.
pub fn find_last(v: &Vec<char>, c: char) -> (r: Option<usize>)
    ensures
        match r {
            Some(i) => last_index_of(v@, c) == i,
            None => last_index_of(v@, c) == -1,
        },
{
    proof { lemma_last_index_of(v@, c); }
    let mut i: usize = v.len();
    while i > 0
        invariant
            i <= v.len(),
            forall|j: int| i <= j < v.len() ==> v@[j] != c,
            -1 <= last_index_of(v@, c) < v.len(),
            last_index_of(v@, c) >= 0 ==> v@[last_index_of(v@, c)] == c,
            forall|j: int| last_index_of(v@, c) < j < v.len() ==> v@[j] != c,
        decreases i,
    {
        if v[i - 1] == c {
            return Some(i - 1);
        }
        i -= 1;
    }
    None
}

/// Finds the first occurrence of `c` in `v`.
pub fn find_first(v: &Vec<char>, c: char) -> (r: Option<usize>)
    ensures
        match r {
            Some(i) => first_index_of(v@, c) == i,
            None => first_index_of(v@, c) == -1,
        },
{
    proof { lemma_first_index_of(v@, c); }
    let mut i: usize = 0;
    while i < v.len()
        invariant
            i <= v.len(),
            forall|j: int| 0 <= j < i ==> v@[j] != c,
            -1 <= first_index_of(v@, c) < v.len(),
            first_index_of(v@, c) >= 0 ==> v@[first_index_of(v@, c)] == c,
            forall|j: int| 0 <= j < v.len() && (first_index_of(v@, c) < 0 || j < first_index_of(v@, c)) ==> v@[j] != c,
        decreases v.len() - i,
    {
        if v[i] == c {
            return Some(i);
        }
        i += 1;
    }
    None
}

/// Whether two character vectors hold the same characters.
pub fn chars_equal(a: &Vec<char>, b: &Vec<char>) -> (r: bool)
    ensures
        r == (a@ == b@),
{
    if a.len() != b.len() {
        return false;
    }
    let mut i: usize = 0;
    while i < a.len()
        invariant
            a.len() == b.len(),
            i <= a.len(),
            forall|j: int| 0 <= j < i ==> a@[j] == b@[j],
        decreases a.len() - i,
    {
        if a[i] != b[i] {
            return false;
        }
        i += 1;
    }
    assert(a@ =~= b@);
    true
}

/// Whether two strings are equal.
pub fn str_equal(a: &str, b: &str) -> (r: bool)
    ensures
        r == (a@ == b@),
{
    let x = chars_of(a);
    let y = chars_of(b);
    chars_equal(&x, &y)
}

/// Whether `s` begins with `p`.
pub fn starts_with(s: &str, p: &str) -> (r: bool)
    ensures
        r == (p@.len() <= s@.len() && s@.subrange(0, p@.len() as int) == p@),
{
    let x = chars_of(s);
    let y = chars_of(p);
    if y.len() > x.len() {
        return false;
    }
    let mut i: usize = 0;
    while i < y.len()
        invariant
            x@ == s@,
            y@ == p@,
            y.len() <= x.len(),
            i <= y.len(),
            forall|j: int| 0 <= j < i ==> x@[j] == y@[j],
        decreases y.len() - i,
    {
        if x[i] != y[i] {
            assert(x@.subrange(0, y@.len() as int)[i as int] != y@[i as int]);
            assert(s@.subrange(0, p@.len() as int) != p@);
            return false;
        }
        i += 1;
    }
    assert(x@.subrange(0, y@.len() as int) =~= y@);
    true
}


/// Unicode white space, as `char::is_whitespace` defines it.
pub open spec fn is_space(c: char) -> bool {
    ||| ('\u{9}' <= c && c <= '\u{d}')
    ||| c == ' '
    ||| c == '\u{85}'
    ||| c == '\u{a0}'
    ||| c == '\u{1680}'
    ||| ('\u{2000}' <= c && c <= '\u{200a}')
    ||| c == '\u{2028}'
    ||| c == '\u{2029}'
    ||| c == '\u{202f}'
    ||| c == '\u{205f}'
    ||| c == '\u{3000}'
}

/// Whether `c` is white space.
pub fn space_char(c: char) -> (r: bool)
    ensures
        r == is_space(c),
{
    ('\u{9}' <= c && c <= '\u{d}') || c == ' ' || c == '\u{85}' || c == '\u{a0}' || c == '\u{1680}'
        || ('\u{2000}' <= c && c <= '\u{200a}') || c == '\u{2028}' || c == '\u{2029}'
        || c == '\u{202f}' || c == '\u{205f}' || c == '\u{3000}'
}

/// The text without its leading white space, as `str::trim_start` gives it.
pub open spec fn trim_start(s: Seq<char>) -> Seq<char>
    decreases s.len(),
{
    if s.len() > 0 && is_space(s[0]) {
        trim_start(s.drop_first())
    } else {
        s
    }
}

/// The text without its trailing white space, as `str::trim_end` gives it.
pub open spec fn trim_end(s: Seq<char>) -> Seq<char>
    decreases s.len(),
{
    if s.len() > 0 && is_space(s.last()) {
        trim_end(s.drop_last())
    } else {
        s
    }
}

/// `s` begins with `p`.
pub open spec fn has_prefix(s: Seq<char>, p: Seq<char>) -> bool {
    p.len() <= s.len() && s.subrange(0, p.len() as int) == p
}

/// The line without a final carriage return.
pub open spec fn strip_cr(s: Seq<char>) -> Seq<char> {
    if s.len() > 0 && s.last() == '\r' {
        s.drop_last()
    } else {
        s
    }
}

/// The lines of a text, as `str::lines` gives them: split at each `\n`, a
/// `\r` before it removed, and no empty line after a final `\n`.
pub open spec fn lines_of(s: Seq<char>) -> Seq<Seq<char>>
    decreases s.len(),
{
    if s.len() == 0 {
        Seq::empty()
    } else {
        let k = first_index_of(s, '\n');
        if k < 0 {
            seq![s]
        } else {
            proof { lemma_first_index_of(s, '\n'); }
            seq![strip_cr(s.subrange(0, k))] + lines_of(s.subrange(k + 1, s.len() as int))
        }
    }
}

/// The first position, from `lo` on, of `c` in `v`, or `hi` when it does
/// not occur before `hi`.
pub fn find_from(v: &Vec<char>, lo: usize, hi: usize, c: char) -> (r: usize)
    requires
        lo <= hi <= v.len(),
    ensures
        lo <= r <= hi,
        r < hi ==> v@[r as int] == c,
        forall|j: int| lo <= j < r ==> v@[j] != c,
{
    let mut i: usize = lo;
    while i < hi
        invariant
            lo <= i <= hi <= v.len(),
            forall|j: int| lo <= j < i ==> v@[j] != c,
        decreases hi - i,
    {
        if v[i] == c {
            return i;
        }
        i += 1;
    }
    hi
}

/// The first position of `c` in `s` is `k`: it is there, and not before.
pub proof fn lemma_first_index_is(s: Seq<char>, c: char, k: int)
    requires
        0 <= k < s.len(),
        s[k] == c,
        forall|j: int| 0 <= j < k ==> s[j] != c,
    ensures
        first_index_of(s, c) == k,
{
    lemma_first_index_of(s, c);
}

/// `c` does not occur in `s`.
pub proof fn lemma_first_index_none(s: Seq<char>, c: char)
    requires
        forall|j: int| 0 <= j < s.len() ==> s[j] != c,
    ensures
        first_index_of(s, c) == -1,
{
    lemma_first_index_of(s, c);
}

/// The position of the first character of `v[lo..hi]` that is not white
/// space, or `hi`.
pub fn skip_spaces(v: &Vec<char>, lo: usize, hi: usize) -> (r: usize)
    requires
        lo <= hi <= v.len(),
    ensures
        lo <= r <= hi,
        v@.subrange(r as int, hi as int) == trim_start(v@.subrange(lo as int, hi as int)),
{
    let mut i: usize = lo;
    while i < hi && space_char(v[i])
        invariant
            lo <= i <= hi <= v.len(),
            trim_start(v@.subrange(i as int, hi as int)) == trim_start(v@.subrange(lo as int, hi as int)),
        decreases hi - i,
    {
        assert(v@.subrange(i as int, hi as int).drop_first() == v@.subrange(i + 1, hi as int));
        i += 1;
    }
    i
}

/// Whether `v[lo..hi]` begins with `p`.
pub fn range_has_prefix(v: &Vec<char>, lo: usize, hi: usize, p: &Vec<char>) -> (r: bool)
    requires
        lo <= hi <= v.len(),
    ensures
        r == has_prefix(v@.subrange(lo as int, hi as int), p@),
{
    if p.len() > hi - lo {
        return false;
    }
    let mut i: usize = 0;
    while i < p.len()
        invariant
            lo <= hi <= v.len(),
            p@.len() <= hi - lo,
            i <= p@.len(),
            forall|j: int| 0 <= j < i ==> v@[lo + j] == p@[j],
        decreases p.len() - i,
    {
        if v[lo + i] != p[i] {
            assert(v@.subrange(lo as int, hi as int).subrange(0, p@.len() as int)[i as int] != p@[i as int]);
            return false;
        }
        i += 1;
    }
    assert(v@.subrange(lo as int, hi as int).subrange(0, p@.len() as int) =~= p@);
    true
}

/// Appends the characters of `t` to `v`.
pub fn push_chars(v: &mut Vec<char>, t: &str)
    ensures
        final(v)@ == old(v)@ + t@,
{
    let c = chars_of(t);
    let mut i: usize = 0;
    let ghost start = v@;
    while i < c.len()
        invariant
            i <= c@.len(),
            c@ == t@,
            v@ == start + c@.take(i as int),
        decreases c.len() - i,
    {
        v.push(c[i]);
        assert(c@.take(i + 1) == c@.take(i as int).push(c@[i as int]));
        i += 1;
    }
    assert(c@.take(c@.len() as int) == c@);
}


/// `s` ends with `p`.
pub open spec fn has_suffix(s: Seq<char>, p: Seq<char>) -> bool {
    p.len() <= s.len() && s.subrange(s.len() - p.len(), s.len() as int) == p
}

/// Whether `s` ends with `p`.
pub fn ends_with(s: &str, p: &str) -> (r: bool)
    ensures
        r == has_suffix(s@, p@),
{
    let x = chars_of(s);
    let y = chars_of(p);
    if y.len() > x.len() {
        return false;
    }
    let off = x.len() - y.len();
    let mut j: usize = off;
    while j < x.len()
        invariant
            x@ == s@,
            y@ == p@,
            y@.len() <= x@.len(),
            off == x@.len() - y@.len(),
            off <= j <= x@.len(),
            forall|t: int| off <= t < j ==> x@[t] == y@[t - off],
        decreases x.len() - j,
    {
        if x[j] != y[j - off] {
            assert(x@.subrange(off as int, x@.len() as int)[j - off] != y@[j - off]);
            return false;
        }
        j += 1;
    }
    assert(x@.subrange(off as int, x@.len() as int) =~= y@);
    true
}

/// One of the strings of `v` is `x`.
pub open spec fn holds_text(v: Seq<String>, x: Seq<char>) -> bool {
    exists|j: int| 0 <= j < v.len() && (#[trigger] v[j])@ == x
}

/// Whether one of the strings of `v` is `x`.
pub fn vec_holds_str(v: &Vec<String>, x: &str) -> (r: bool)
    ensures
        r == holds_text(v@, x@),
{
    let mut j: usize = 0;
    while j < v.len()
        invariant
            j <= v@.len(),
            forall|t: int| 0 <= t < j ==> (#[trigger] v@[t])@ != x@,
        decreases v.len() - j,
    {
        if str_equal(v[j].as_str(), x) {
            return true;
        }
        j += 1;
    }
    false
}

/// The character of a decimal digit.
pub open spec fn digit_char(d: int) -> char {
    if d == 0 { '0' } else if d == 1 { '1' } else if d == 2 { '2' } else if d == 3 { '3' } else if d == 4 { '4' }
    else if d == 5 { '5' } else if d == 6 { '6' } else if d == 7 { '7' } else if d == 8 { '8' } else { '9' }
}

/// The decimal digits of `n`, without leading zeros.
pub open spec fn decimal(n: nat) -> Seq<char>
    decreases n,
{
    if n < 10 {
        seq![digit_char(n as int)]
    } else {
        decimal(n / 10).push(digit_char((n % 10) as int))
    }
}

/// The decimal digits of `n`, with a leading zero when there is only one,
/// as `{:02}` writes them.
pub open spec fn decimal2(n: nat) -> Seq<char> {
    if n < 10 { seq!['0', digit_char(n as int)] } else { decimal(n) }
}

fn digit(d: u64) -> (c: char)
    requires
        d < 10,
    ensures
        c == digit_char(d as int),
{
    if d == 0 { '0' } else if d == 1 { '1' } else if d == 2 { '2' } else if d == 3 { '3' } else if d == 4 { '4' }
    else if d == 5 { '5' } else if d == 6 { '6' } else if d == 7 { '7' } else if d == 8 { '8' } else { '9' }
}

/// Appends the decimal digits of `n` to `v`.
pub fn push_decimal(v: &mut Vec<char>, n: u64)
    ensures
        final(v)@ == old(v)@ + decimal(n as nat),
    decreases n,
{
    if n < 10 {
        v.push(digit(n));
    } else {
        push_decimal(v, n / 10);
        v.push(digit(n % 10));
        proof {
            assert(decimal(n as nat) == decimal((n / 10) as nat).push(digit_char((n % 10) as int)));
        }
    }
}

/// The decimal digits of `n`.
pub fn decimal_string(n: u64) -> (r: String)
    ensures
        r@ == decimal(n as nat),
{
    let mut v: Vec<char> = Vec::new();
    push_decimal(&mut v, n);
    assert(v@ == decimal(n as nat));
    string_from_chars(&v)
}

/// The decimal digits of `n`, at least two of them, as `{:02}` writes them.
pub fn decimal2_string(n: u64) -> (r: String)
    ensures
        r@ == decimal2(n as nat),
{
    let mut v: Vec<char> = Vec::new();
    if n < 10 {
        v.push('0');
    }
    push_decimal(&mut v, n);
    proof {
        if n < 10 {
            assert(v@ =~= decimal2(n as nat));
        }
    }
    string_from_chars(&v)
}


/// `s` with every occurrence of `p` (taken from the left, not overlapping)
/// replaced by `w`, as `str::replace` gives it for a non-empty `p`.
pub open spec fn replace_all(s: Seq<char>, p: Seq<char>, w: Seq<char>) -> Seq<char>
    decreases s.len(),
{
    if p.len() == 0 || s.len() == 0 {
        s
    } else if has_prefix(s, p) {
        w + replace_all(s.subrange(p.len() as int, s.len() as int), p, w)
    } else {
        seq![s[0]] + replace_all(s.subrange(1, s.len() as int), p, w)
    }
}

/// `s` with every occurrence of `p` replaced by `w`.
pub fn replace_str(s: &str, p: &str, w: &str) -> (r: String)
    requires
        p@.len() > 0,
    ensures
        r@ == replace_all(s@, p@, w@),
{
    let v = chars_of(s);
    let pv = chars_of(p);
    let n = v.len();
    let mut out = String::new();
    let mut i: usize = 0;
    assert(v@.subrange(0, n as int) == v@);
    while i < n
        invariant
            v@ == s@,
            pv@ == p@,
            p@.len() > 0,
            n == v@.len(),
            i <= n,
            out@ + replace_all(v@.subrange(i as int, n as int), p@, w@) == replace_all(s@, p@, w@),
        decreases n - i,
    {
        let ghost rest = v@.subrange(i as int, n as int);
        if range_has_prefix(&v, i, n, &pv) {
            let ghost before = out@;
            push_str(&mut out, w);
            assert(rest.subrange(p@.len() as int, rest.len() as int) == v@.subrange(i + p@.len(), n as int));
            assert(before + (w@ + replace_all(v@.subrange(i + p@.len(), n as int), p@, w@))
                == out@ + replace_all(v@.subrange(i + p@.len(), n as int), p@, w@));
            i = i + pv.len();
        } else {
            let ghost before = out@;
            push_char(&mut out, v[i]);
            assert(rest[0] == v@[i as int]);
            assert(rest.subrange(1, rest.len() as int) == v@.subrange(i + 1, n as int));
            assert(before + (seq![v@[i as int]] + replace_all(v@.subrange(i + 1, n as int), p@, w@))
                == out@ + replace_all(v@.subrange(i + 1, n as int), p@, w@));
            i = i + 1;
        }
    }
    assert(out@ + replace_all(v@.subrange(n as int, n as int), p@, w@) == out@);
    out
}

/// `s` followed by spaces up to `width` characters, as `{:<width}` writes it.
pub open spec fn pad_right(s: Seq<char>, width: nat) -> Seq<char> {
    if s.len() >= width { s } else { s + Seq::new((width - s.len()) as nat, |i: int| ' ') }
}

/// Appends `s` to `out`, followed by spaces up to `width` characters.
pub fn push_padded(out: &mut String, s: &str, width: usize)
    ensures
        final(out)@ == old(out)@ + pad_right(s@, width as nat),
{
    let v = chars_of(s);
    push_str(out, s);
    let ghost base = out@;
    let mut k: usize = v.len();
    while k < width
        invariant
            v@ == s@,
            v@.len() <= k <= width || (k == v@.len() && k >= width),
            out@ == base + Seq::new((k - v@.len()) as nat, |i: int| ' '),
        decreases width - k,
    {
        let ghost before = out@;
        push_char(out, ' ');
        assert(Seq::new((k + 1 - v@.len()) as nat, |i: int| ' ') == Seq::new((k - v@.len()) as nat, |i: int| ' ').push(' '));
        k += 1;
    }
    proof {
        if v@.len() >= width {
            assert(Seq::new(0nat, |i: int| ' ') == Seq::<char>::empty());
            assert(out@ == base);
        }
    }
}

/// The strings of `v` joined by `sep`.
pub open spec fn join(v: Seq<Seq<char>>, sep: Seq<char>) -> Seq<char>
    decreases v.len(),
{
    if v.len() == 0 {
        Seq::empty()
    } else if v.len() == 1 {
        v[0]
    } else {
        join(v.drop_last(), sep) + sep + v.last()
    }
}

/// The strings of `v` joined by `sep`.
pub fn join_strings(v: &Vec<String>, sep: &str) -> (r: String)
    ensures
        r@ == join(v@.map_values(|x: String| x@), sep@),
{
    let ghost views = v@.map_values(|x: String| x@);
    let mut out = String::new();
    let mut i: usize = 0;
    while i < v.len()
        invariant
            views == v@.map_values(|x: String| x@),
            i <= v@.len(),
            out@ == join(views.take(i as int), sep@),
        decreases v.len() - i,
    {
        assert(views.take(i + 1).drop_last() == views.take(i as int));
        assert(views.take(i + 1).last() == v@[i as int]@);
        if i > 0 {
            push_str(&mut out, sep);
        } else {
            assert(views.take(1) == seq![views[0]]);
            assert(out@ == Seq::<char>::empty());
        }
        push_str(&mut out, v[i].as_str());
        i += 1;
    }
    assert(views.take(v@.len() as int) == views);
    out
}

} // verus!
