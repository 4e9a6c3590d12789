//! Character-level helpers shared by the parsers and message builders.

use vstd::prelude::*;

verus! {

/// Unicode `White_Space` property (the set `char::is_whitespace` tests).
pub open spec fn is_unicode_whitespace(c: char) -> bool {
    let u = c as u32;
    ||| 0x09 <= u <= 0x0D
    ||| u == 0x20
    ||| u == 0x85
    ||| u == 0xA0
    ||| u == 0x1680
    ||| 0x2000 <= u <= 0x200A
    ||| u == 0x2028
    ||| u == 0x2029
    ||| u == 0x202F
    ||| u == 0x205F
    ||| u == 0x3000
}

pub fn is_whitespace(c: char) -> (b: bool)
    ensures
        b == is_unicode_whitespace(c),
{
    let u = c as u32;
    (0x09 <= u && u <= 0x0D) || u == 0x20 || u == 0x85 || u == 0xA0 || u == 0x1680 || (0x2000 <= u
        && u <= 0x200A) || u == 0x2028 || u == 0x2029 || u == 0x202F || u == 0x205F || u == 0x3000
}

pub open spec fn ascii_lower(c: char) -> char {
    if 'A' <= c <= 'Z' {
        ((c as u32) + 32) as char
    } else {
        c
    }
}

pub fn to_ascii_lower(c: char) -> (r: char)
    ensures
        r == ascii_lower(c),
{
    if 'A' <= c && c <= 'Z' {
        let u = (c as u8) + 32;
        u as char
    } else {
        c
    }
}

/// The characters of `s`, in order.
pub fn chars_of(s: &str) -> (v: Vec<char>)
    ensures
        v@ == s@,
{
    let n = s.unicode_len();
    let mut v: Vec<char> = Vec::new();
    let mut i: usize = 0;
    while i < n
        invariant
            n == s@.len(),
            i <= n,
            v@ == s@.subrange(0, i as int),
        decreases n - i,
    {
        let c = s.get_char(i);
        v.push(c);
        i = i + 1;
        assert(v@ =~= s@.subrange(0, i as int));
    }
    assert(v@ =~= s@);
    v
}

/// `s` without its leading white space.
pub open spec fn trim_start_seq(s: Seq<char>) -> Seq<char>
    decreases s.len(),
{
    if s.len() > 0 && is_unicode_whitespace(s[0]) {
        trim_start_seq(s.drop_first())
    } else {
        s
    }
}

/// `s` without its trailing white space.
pub open spec fn trim_end_seq(s: Seq<char>) -> Seq<char>
    decreases s.len(),
{
    if s.len() > 0 && is_unicode_whitespace(s.last()) {
        trim_end_seq(s.drop_last())
    } else {
        s
    }
}

/// `s` without leading and trailing white space (what `str::trim` keeps).
pub open spec fn trim_seq(s: Seq<char>) -> Seq<char> {
    trim_end_seq(trim_start_seq(s))
}

pub open spec fn all_whitespace(s: Seq<char>) -> bool {
    forall|i: int| 0 <= i < s.len() ==> is_unicode_whitespace(#[trigger] s[i])
}

proof fn lemma_trim_start_skip(s: Seq<char>, k: int)
    requires
        0 <= k <= s.len(),
        forall|j: int| 0 <= j < k ==> is_unicode_whitespace(#[trigger] s[j]),
    ensures
        trim_start_seq(s) == trim_start_seq(s.subrange(k, s.len() as int)),
    decreases k,
{
    if k > 0 {
        assert(s.drop_first().subrange(k - 1, s.drop_first().len() as int) =~= s.subrange(
            k,
            s.len() as int,
        ));
        assert forall|j: int| 0 <= j < k - 1 implies is_unicode_whitespace(
            #[trigger] s.drop_first()[j],
        ) by {
            assert(s.drop_first()[j] == s[j + 1]);
        }
        lemma_trim_start_skip(s.drop_first(), k - 1);
    } else {
        assert(s.subrange(0, s.len() as int) =~= s);
    }
}

proof fn lemma_trim_end_take(s: Seq<char>, k: int)
    requires
        0 <= k <= s.len(),
        forall|j: int| k <= j < s.len() ==> is_unicode_whitespace(#[trigger] s[j]),
    ensures
        trim_end_seq(s) == trim_end_seq(s.subrange(0, k)),
    decreases s.len() - k,
{
    if k < s.len() {
        assert(s.drop_last().subrange(0, k) =~= s.subrange(0, k));
        assert forall|j: int| k <= j < s.drop_last().len() implies is_unicode_whitespace(
            #[trigger] s.drop_last()[j],
        ) by {
            assert(s.drop_last()[j] == s[j]);
        }
        lemma_trim_end_take(s.drop_last(), k);
    } else {
        assert(s.subrange(0, k) =~= s);
    }
}

/// Bounds `(lo, hi)` of the trimmed part of `v`.
pub fn trim_bounds(v: &Vec<char>) -> (r: (usize, usize))
    ensures
        r.0 <= r.1 <= v.len(),
        v@.subrange(r.0 as int, r.1 as int) == trim_seq(v@),
{
    let n = v.len();
    let mut lo: usize = 0;
    while lo < n && is_whitespace(v[lo])
        invariant
            n == v.len(),
            lo <= n,
            forall|j: int| 0 <= j < lo ==> is_unicode_whitespace(#[trigger] v@[j]),
        decreases n - lo,
    {
        lo = lo + 1;
    }
    proof {
        lemma_trim_start_skip(v@, lo as int);
        let t = v@.subrange(lo as int, n as int);
        if t.len() > 0 {
            assert(t[0] == v@[lo as int]);
        }
        assert(trim_start_seq(t) == t);
    }
    let mut hi: usize = n;
    while hi > lo && is_whitespace(v[hi - 1])
        invariant
            n == v.len(),
            lo <= hi <= n,
            forall|j: int| hi <= j < n ==> is_unicode_whitespace(#[trigger] v@[j]),
        decreases hi - lo,
    {
        hi = hi - 1;
    }
    proof {
        let t = v@.subrange(lo as int, n as int);
        let k = hi - lo;
        assert forall|j: int| k <= j < t.len() implies is_unicode_whitespace(#[trigger] t[j]) by {
            assert(t[j] == v@[lo + j]);
        }
        lemma_trim_end_take(t, k as int);
        let u = t.subrange(0, k as int);
        assert(u =~= v@.subrange(lo as int, hi as int));
        if u.len() > 0 {
            assert(u.last() == v@[hi - 1]);
        }
        assert(trim_end_seq(u) == u);
    }
    (lo, hi)
}

/// `s` with leading and trailing white space removed.
pub fn trim_to_string(s: &str) -> (r: String)
    ensures
        r@ == trim_seq(s@),
{
    let v = chars_of(s);
    let (lo, hi) = trim_bounds(&v);
    let t = s.substring_char(lo, hi);
    t.to_owned()
}

pub proof fn lemma_trim_empty_iff_blank(s: Seq<char>)
    ensures
        trim_seq(s).len() == 0 <==> all_whitespace(s),
    decreases s.len(),
{
    if s.len() > 0 && is_unicode_whitespace(s[0]) {
        lemma_trim_empty_iff_blank(s.drop_first());
        if all_whitespace(s.drop_first()) {
            assert forall|i: int| 0 <= i < s.len() implies is_unicode_whitespace(#[trigger] s[i]) by {
                if i > 0 {
                    assert(s[i] == s.drop_first()[i - 1]);
                }
            }
        }
        if all_whitespace(s) {
            assert forall|i: int| 0 <= i < s.drop_first().len() implies is_unicode_whitespace(
                #[trigger] s.drop_first()[i],
            ) by {
                assert(s.drop_first()[i] == s[i + 1]);
            }
        }
    } else {
        lemma_trim_end_keeps_first(s);
    }
}

proof fn lemma_trim_end_keeps_first(s: Seq<char>)
    requires
        s.len() == 0 || !is_unicode_whitespace(s[0]),
    ensures
        trim_end_seq(s).len() == 0 <==> s.len() == 0,
        s.len() > 0 ==> !all_whitespace(s),
    decreases s.len(),
{
    if s.len() > 1 && is_unicode_whitespace(s.last()) {
        assert(s.drop_last()[0] == s[0]);
        lemma_trim_end_keeps_first(s.drop_last());
    }
    if s.len() > 0 {
        assert(!is_unicode_whitespace(s[0]));
    }
}

/// True when `s` holds nothing but white space (`s.trim().is_empty()`).
pub fn is_blank(s: &str) -> (b: bool)
    ensures
        b == (trim_seq(s@).len() == 0),
        b == all_whitespace(s@),
{
    proof {
        lemma_trim_empty_iff_blank(s@);
    }
    let v = chars_of(s);
    let mut i: usize = 0;
    while i < v.len()
        invariant
            v@ == s@,
            trim_seq(s@).len() == 0 <==> all_whitespace(s@),
            i <= v.len(),
            forall|j: int| 0 <= j < i ==> is_unicode_whitespace(#[trigger] v@[j]),
        decreases v.len() - i,
    {
        if !is_whitespace(v[i]) {
            assert(!is_unicode_whitespace(s@[i as int]));
            return false;
        }
        i = i + 1;
    }
    true
}


/// Appends one character to `s` (`String::push`), which its documentation
/// describes as appending the char to the end of the string.
#[verifier::external_body]
pub(crate) fn push_char(s: &mut String, c: char)
    ensures
        final(s)@ == old(s)@.push(c),
{
    s.push(c);
}

pub open spec fn digit_char(d: int) -> char {
    ((48 + d) as u32) as char
}

/// The character of decimal digit `d`.
pub fn digit(d: u32) -> (c: char)
    requires
        d < 10,
    ensures
        c == digit_char(d as int),
{
    (48u8 + d as u8) as char
}

/// Decimal digits of `n`, most significant first, without leading zeros.
pub open spec fn decimal_seq(n: nat) -> Seq<char>
    decreases n,
{
    if n < 10 {
        seq![digit_char(n as int)]
    } else {
        decimal_seq(n / 10).push(digit_char((n % 10) as int))
    }
}

/// Appends the decimal representation of `n` to `s`.
pub fn push_decimal(s: &mut String, n: u64)
    ensures
        final(s)@ == old(s)@ + decimal_seq(n as nat),
    decreases n,
{
    if n >= 10 {
        push_decimal(s, n / 10);
    }
    let d = (n % 10) as u8;
    let c = (48u8 + d) as char;
    push_char(s, c);
    proof {
        if n < 10 {
            assert(decimal_seq(n as nat) =~= seq![digit_char(n as int)]);
        }
    }
    assert(final(s)@ =~= old(s)@ + decimal_seq(n as nat));
}

pub open spec fn ascii_lower_seq(s: Seq<char>) -> Seq<char> {
    s.map_values(|c: char| ascii_lower(c))
}

proof fn lemma_lower_keeps_whitespace(c: char)
    ensures
        is_unicode_whitespace(ascii_lower(c)) == is_unicode_whitespace(c),
{
    if 'A' <= c <= 'Z' {
        assert(0x41 <= c as u32 <= 0x5A);
        assert(ascii_lower(c) as u32 == c as u32 + 32);
    }
}

proof fn lemma_lower_trim_start(s: Seq<char>)
    ensures
        ascii_lower_seq(trim_start_seq(s)) == trim_start_seq(ascii_lower_seq(s)),
    decreases s.len(),
{
    if s.len() > 0 {
        lemma_lower_keeps_whitespace(s[0]);
        assert(ascii_lower_seq(s)[0] == ascii_lower(s[0]));
        if is_unicode_whitespace(s[0]) {
            assert(ascii_lower_seq(s).drop_first() =~= ascii_lower_seq(s.drop_first()));
            lemma_lower_trim_start(s.drop_first());
        }
    }
}

proof fn lemma_lower_trim_end(s: Seq<char>)
    ensures
        ascii_lower_seq(trim_end_seq(s)) == trim_end_seq(ascii_lower_seq(s)),
    decreases s.len(),
{
    if s.len() > 0 {
        lemma_lower_keeps_whitespace(s.last());
        assert(ascii_lower_seq(s).last() == ascii_lower(s.last()));
        if is_unicode_whitespace(s.last()) {
            assert(ascii_lower_seq(s).drop_last() =~= ascii_lower_seq(s.drop_last()));
            lemma_lower_trim_end(s.drop_last());
        }
    }
}

/// Lower-casing ASCII letters and trimming white space commute.
pub proof fn lemma_lower_trim(s: Seq<char>)
    ensures
        ascii_lower_seq(trim_seq(s)) == trim_seq(ascii_lower_seq(s)),
{
    lemma_lower_trim_start(s);
    lemma_lower_trim_end(trim_start_seq(s));
}

/// `v[lo..hi]` with ASCII capitals turned into small letters.
pub fn lowered_range(v: &Vec<char>, lo: usize, hi: usize) -> (r: Vec<char>)
    requires
        lo <= hi <= v.len(),
    ensures
        r@ == ascii_lower_seq(v@.subrange(lo as int, hi as int)),
{
    let mut r: Vec<char> = Vec::new();
    let mut i = lo;
    while i < hi
        invariant
            lo <= i <= hi <= v.len(),
            r@ == ascii_lower_seq(v@.subrange(lo as int, i as int)),
        decreases hi - i,
    {
        r.push(to_ascii_lower(v[i]));
        i = i + 1;
        assert(r@ =~= ascii_lower_seq(v@.subrange(lo as int, i as int)));
    }
    r
}

pub fn chars_equal(a: &Vec<char>, b: &Vec<char>) -> (r: bool)
    ensures
        r == (a@ == b@),
{
    if a.len() != b.len() {
        return false;
    }
    let mut i: usize = 0;
    while i < a.len()
        invariant
            a.len() == b.len(),
            i <= a.len(),
            forall|j: int| 0 <= j < i ==> a@[j] == b@[j],
        decreases a.len() - i,
    {
        if a[i] != b[i] {
            return false;
        }
        i = i + 1;
    }
    assert(a@ =~= b@);
    true
}

/// `s` equals the literal `lit`.
pub fn chars_equal_str(s: &Vec<char>, lit: &str) -> (r: bool)
    ensures
        r == (s@ == lit@),
{
    let l = chars_of(lit);
    chars_equal(s, &l)
}

/// `needle` occurs in `hay` starting at `at`.
pub open spec fn occurs_at(hay: Seq<char>, needle: Seq<char>, at: int) -> bool {
    0 <= at && at + needle.len() <= hay.len() && hay.subrange(at, at + needle.len()) == needle
}

pub open spec fn contains_seq(hay: Seq<char>, needle: Seq<char>) -> bool {
    exists|at: int| occurs_at(hay, needle, at)
}

/// `hay` contains `needle` (`str::contains` with a string pattern).
pub fn contains_str(hay: &str, needle: &str) -> (r: bool)
    ensures
        r == contains_seq(hay@, needle@),
{
    let h = chars_of(hay);
    let n = chars_of(needle);
    if n.len() > h.len() {
        proof {
            if contains_seq(hay@, needle@) {
                let at = choose|at: int| occurs_at(hay@, needle@, at);
                assert(at + needle@.len() <= hay@.len());
            }
        }
        return false;
    }
    let mut at: usize = 0;
    while at <= h.len() - n.len()
        invariant
            h@ == hay@,
            n@ == needle@,
            n.len() <= h.len(),
            at <= h.len() - n.len() + 1,
            forall|a: int| 0 <= a < at ==> !occurs_at(hay@, needle@, a),
        decreases h.len() - at,
    {
        let mut k: usize = 0;
        let mut same = true;
        while k < n.len()
            invariant
                h@ == hay@,
                n@ == needle@,
                at + n.len() <= h.len(),
                k <= n.len(),
                same == forall|j: int| 0 <= j < k ==> h@[at + j] == n@[j],
            decreases n.len() - k,
        {
            if h[at + k] != n[k] {
                same = false;
            }
            k = k + 1;
        }
        if same {
            assert(hay@.subrange(at as int, at + needle@.len()) =~= needle@);
            assert(occurs_at(hay@, needle@, at as int));
            return true;
        }
        proof {
            if occurs_at(hay@, needle@, at as int) {
                assert forall|j: int| 0 <= j < n.len() implies h@[at + j] == n@[j] by {
                    assert(hay@.subrange(at as int, at + needle@.len())[j] == hay@[at + j]);
                }
            }
        }
        at = at + 1;
    }
    proof {
        if contains_seq(hay@, needle@) {
            let a = choose|a: int| occurs_at(hay@, needle@, a);
            assert(a < at);
        }
    }
    false
}

/// `s` begins with `prefix`.
pub fn starts_with_str(s: &str, prefix: &str) -> (r: bool)
    ensures
        r == (prefix@.len() <= s@.len() && s@.subrange(0, prefix@.len() as int) == prefix@),
{
    let a = chars_of(s);
    let p = chars_of(prefix);
    if p.len() > a.len() {
        return false;
    }
    let mut k: usize = 0;
    while k < p.len()
        invariant
            a@ == s@,
            p@ == prefix@,
            p.len() <= a.len(),
            k <= p.len(),
            forall|j: int| 0 <= j < k ==> a@[j] == p@[j],
        decreases p.len() - k,
    {
        if a[k] != p[k] {
            assert(s@.subrange(0, prefix@.len() as int)[k as int] != prefix@[k as int]);
            return false;
        }
        k = k + 1;
    }
    assert(s@.subrange(0, prefix@.len() as int) =~= prefix@);
    true
}
} // verus!
