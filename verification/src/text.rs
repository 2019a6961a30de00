//! Character-sequence predicates used by the name-based classifiers.
use vstd::prelude::*;
use vstd::utf8::is_ascii_chars;

verus! {

/// The Unicode uppercase of a character sequence, as `str::to_uppercase` computes it.
pub uninterp spec fn spec_to_uppercase(s: Seq<char>) -> Seq<char>;

/// ASCII uppercase of one character (other characters unchanged).
pub open spec fn ascii_upper_char(c: char) -> char {
    if 'a' <= c && c <= 'z' {
        ((c as u32) - 32) as char
    } else {
        c
    }
}

/// `str::to_uppercase`. Its result is the Unicode uppercase mapping of the text; for
/// ASCII text, whose uppercase the Unicode tables give as the ASCII uppercase,
/// character by character, this contract states that mapping. Nothing more is stated of
/// text with non-ASCII characters.
#[verifier::external_body]
pub(crate) fn to_upper(s: &str) -> (r: String)
    ensures
        r@ == spec_to_uppercase(s@),
        is_ascii_chars(s@) ==> r@ == s@.map_values(|c: char| ascii_upper_char(c)),
{
    s.to_uppercase()
}

/// The Unicode lowercase of a character sequence, as `str::to_lowercase` computes it.
pub uninterp spec fn spec_to_lowercase(s: Seq<char>) -> Seq<char>;

/// ASCII lowercase of one character (other characters unchanged).
pub open spec fn ascii_lower_char(c: char) -> char {
    if 'A' <= c && c <= 'Z' {
        ((c as u32) + 32) as char
    } else {
        c
    }
}

/// `str::to_lowercase`. Its result is the Unicode lowercase mapping of the text; for
/// ASCII text, whose lowercase the Unicode tables give as the ASCII lowercase,
/// character by character, this contract states that mapping. Nothing more is stated of
/// text with non-ASCII characters.
#[verifier::external_body]
pub(crate) fn to_lower(s: &str) -> (r: String)
    ensures
        r@ == spec_to_lowercase(s@),
        is_ascii_chars(s@) ==> r@ == s@.map_values(|c: char| ascii_lower_char(c)),
{
    s.to_lowercase()
}

/// `p` is a prefix of `h`.
pub open spec fn seq_starts_with(h: Seq<char>, p: Seq<char>) -> bool {
    p.len() <= h.len() && h.subrange(0, p.len() as int) == p
}

/// `p` is a suffix of `h`.
pub open spec fn seq_ends_with(h: Seq<char>, p: Seq<char>) -> bool {
    p.len() <= h.len() && h.subrange(h.len() - p.len(), h.len() as int) == p
}

/// `p` occurs in `h` at position `i`.
pub open spec fn occurs_at(h: Seq<char>, p: Seq<char>, i: int) -> bool {
    0 <= i && i + p.len() <= h.len() && h.subrange(i, i + p.len()) == p
}

/// `p` occurs somewhere in `h`.
pub open spec fn seq_contains(h: Seq<char>, p: Seq<char>) -> bool {
    exists|i: int| occurs_at(h, p, i)
}

/// The characters of a string.
pub fn chars_of(s: &str) -> (v: Vec<char>)
    ensures
        v@ == s@,
{
    let n = s.unicode_len();
    let mut v: Vec<char> = Vec::new();
    let mut i: usize = 0;
    while i < n
        invariant
            i <= n,
            n == s@.len(),
            v@ == s@.subrange(0, i as int),
        decreases n - i,
    {
        v.push(s.get_char(i));
        i = i + 1;
    }
    v
}

/// Whether `p` occurs in `h` at position `i`.
pub fn matches_at(h: &[char], p: &[char], i: usize) -> (b: bool)
    ensures
        b == occurs_at(h@, p@, i as int),
{
    if i > h.len() || p.len() > h.len() - i {
        return false;
    }
    let mut k: usize = 0;
    while k < p.len()
        invariant
            k <= p@.len(),
            i <= h.len(),
            p.len() <= h.len() - i,
            i + p@.len() <= h@.len(),
            forall|j: int| 0 <= j < k ==> h@[i + j] == p@[j],
        decreases p@.len() - k,
    {
        if h[i + k] != p[k] {
            proof {
                assert(h@.subrange(i as int, i + p@.len())[k as int] != p@[k as int]);
            }
            return false;
        }
        k = k + 1;
    }
    proof {
        assert(h@.subrange(i as int, i + p@.len()) =~= p@);
    }
    true
}

/// Whether `h` starts with `p`.
pub fn starts_with(h: &[char], p: &str) -> (b: bool)
    ensures
        b == seq_starts_with(h@, p@),
{
    let pc = chars_of(p);
    matches_at(h, pc.as_slice(), 0)
}

/// Whether `h` ends with `p`.
pub fn ends_with(h: &[char], p: &str) -> (b: bool)
    ensures
        b == seq_ends_with(h@, p@),
{
    let pc = chars_of(p);
    if pc.len() > h.len() {
        return false;
    }
    matches_at(h, pc.as_slice(), h.len() - pc.len())
}

/// Whether `p` occurs in `h`.
pub fn contains(h: &[char], p: &str) -> (b: bool)
    ensures
        b == seq_contains(h@, p@),
{
    let pc = chars_of(p);
    contains_chars(h, pc.as_slice())
}

/// Whether the characters `p` occur in `h`.
pub fn contains_chars(h: &[char], p: &[char]) -> (b: bool)
    ensures
        b == seq_contains(h@, p@),
{
    if p.len() > h.len() {
        proof {
            assert forall|i: int| !occurs_at(h@, p@, i) by {}
        }
        return false;
    }
    let last = h.len() - p.len();
    let mut i: usize = 0;
    while i <= last
        invariant
            last == h@.len() - p@.len(),
            forall|j: int| 0 <= j < i ==> !occurs_at(h@, p@, j),
        ensures
            forall|j: int| 0 <= j <= last ==> !occurs_at(h@, p@, j),
        decreases last + 1 - i,
    {
        if matches_at(h, p, i) {
            return true;
        }
        if i == last {
            break;
        }
        i = i + 1;
    }
    proof {
        assert forall|j: int| !occurs_at(h@, p@, j) by {
            if 0 <= j && j + p@.len() <= h@.len() {
                assert(j <= last);
            }
        }
    }
    false
}

/// Whether two character sequences are equal.
pub fn chars_eq(a: &[char], b: &[char]) -> (r: bool)
    ensures
        r == (a@ == b@),
{
    if a.len() != b.len() {
        return false;
    }
    let r = matches_at(a, b, 0);
    proof {
        assert(a@.subrange(0, b@.len() as int) =~= a@);
    }
    r
}

/// Whether a character sequence equals a string.
pub fn eq_str(a: &[char], b: &str) -> (r: bool)
    ensures
        r == (a@ == b@),
{
    let bc = chars_of(b);
    chars_eq(a, bc.as_slice())
}

/// The uppercase of a string, as characters.
pub fn upper_chars(s: &str) -> (v: Vec<char>)
    ensures
        v@ == spec_to_uppercase(s@),
{
    let u = to_upper(s);
    chars_of(u.as_str())
}

/// The text of a character sequence, as an owned string (`String::from_iter`).
#[verifier::external_body]
pub(crate) fn string_from_chars(v: &[char]) -> (r: String)
    ensures
        r@ == v@,
{
    v.iter().collect()
}

/// The Unicode `White_Space` property, which `char::is_whitespace` and `str::trim` use.
pub open spec fn is_white_space(c: char) -> bool {
    let v = c as u32;
    ||| 0x09 <= v <= 0x0d
    ||| v == 0x20
    ||| v == 0x85
    ||| v == 0xa0
    ||| v == 0x1680
    ||| 0x2000 <= v <= 0x200a
    ||| v == 0x2028
    ||| v == 0x2029
    ||| v == 0x202f
    ||| v == 0x205f
    ||| v == 0x3000
}

/// Whether a character is Unicode white space.
pub fn is_white_space_char(c: char) -> (b: bool)
    ensures
        b == is_white_space(c),
{
    let v = c as u32;
    (0x09 <= v && v <= 0x0d) || v == 0x20 || v == 0x85 || v == 0xa0 || v == 0x1680 || (0x2000
        <= v && v <= 0x200a) || v == 0x2028 || v == 0x2029 || v == 0x202f || v == 0x205f || v
        == 0x3000
}

/// Number of white-space characters at the start of `s`.
pub open spec fn leading_ws(s: Seq<char>) -> nat
    decreases s.len(),
{
    if s.len() == 0 {
        0
    } else if is_white_space(s[0]) {
        1 + leading_ws(s.subrange(1, s.len() as int))
    } else {
        0
    }
}

/// Number of white-space characters at the end of `s`.
pub open spec fn trailing_ws(s: Seq<char>) -> nat
    decreases s.len(),
{
    if s.len() == 0 {
        0
    } else if is_white_space(s.last()) {
        1 + trailing_ws(s.drop_last())
    } else {
        0
    }
}

/// `s` without its leading and trailing white space (`str::trim`).
pub open spec fn trim_chars(s: Seq<char>) -> Seq<char> {
    let t = s.subrange(leading_ws(s) as int, s.len() as int);
    t.subrange(0, t.len() - trailing_ws(t))
}

/// The white-space run at the start of `s` ends at `i`.
proof fn lemma_leading_ws(s: Seq<char>, i: int)
    requires
        0 <= i <= s.len(),
        forall|k: int| 0 <= k < i ==> is_white_space(#[trigger] s[k]),
        i == s.len() || !is_white_space(s[i]),
    ensures
        leading_ws(s) == i,
    decreases s.len(),
{
    if s.len() > 0 && i > 0 {
        let r = s.subrange(1, s.len() as int);
        assert forall|k: int| 0 <= k < i - 1 implies is_white_space(#[trigger] r[k]) by {
            assert(r[k] == s[k + 1]);
        }
        if i - 1 < r.len() {
            assert(r[i - 1] == s[i]);
        }
        lemma_leading_ws(r, i - 1);
    }
}

/// The white-space run at the end of `s` starts at `j`.
proof fn lemma_trailing_ws(s: Seq<char>, j: int)
    requires
        0 <= j <= s.len(),
        forall|k: int| j <= k < s.len() ==> is_white_space(#[trigger] s[k]),
        j == 0 || !is_white_space(s[j - 1]),
    ensures
        trailing_ws(s) == s.len() - j,
    decreases s.len(),
{
    if s.len() > 0 && j < s.len() {
        let r = s.drop_last();
        assert forall|k: int| j <= k < r.len() implies is_white_space(#[trigger] r[k]) by {
            assert(r[k] == s[k]);
        }
        if j > 0 {
            assert(r[j - 1] == s[j - 1]);
        }
        lemma_trailing_ws(r, j);
    }
}

/// `s` without leading and trailing white space (`str::trim`).
pub fn trim(s: &str) -> (t: &str)
    ensures
        t@ == trim_chars(s@),
{
    let n = s.unicode_len();
    let mut i: usize = 0;
    while i < n && is_white_space_char(s.get_char(i))
        invariant
            i <= n,
            n == s@.len(),
            forall|k: int| 0 <= k < i ==> is_white_space(#[trigger] s@[k]),
        decreases n - i,
    {
        i = i + 1;
    }
    let mut j: usize = n;
    while j > i && is_white_space_char(s.get_char(j - 1))
        invariant
            i <= j <= n,
            n == s@.len(),
            forall|k: int| j <= k < n ==> is_white_space(#[trigger] s@[k]),
        decreases j,
    {
        j = j - 1;
    }
    proof {
        lemma_leading_ws(s@, i as int);
        let u = s@.subrange(i as int, n as int);
        assert forall|k: int| j - i <= k < u.len() implies is_white_space(#[trigger] u[k]) by {
            assert(u[k] == s@[k + i]);
        }
        if j > i {
            assert(u[j - i - 1] == s@[j - 1]);
        }
        lemma_trailing_ws(u, j - i);
        assert(u.subrange(0, j - i) =~= s@.subrange(i as int, j as int));
    }
    s.substring_char(i, j)
}

/// `c` without leading and trailing white space.
pub fn trim_slice(c: &[char]) -> (t: Vec<char>)
    ensures
        t@ == trim_chars(c@),
{
    let n = c.len();
    let mut i: usize = 0;
    while i < n && is_white_space_char(c[i])
        invariant
            i <= n,
            n == c@.len(),
            forall|k: int| 0 <= k < i ==> is_white_space(#[trigger] c@[k]),
        decreases n - i,
    {
        i = i + 1;
    }
    let mut j: usize = n;
    while j > i && is_white_space_char(c[j - 1])
        invariant
            i <= j <= n,
            n == c@.len(),
            forall|k: int| j <= k < n ==> is_white_space(#[trigger] c@[k]),
        decreases j,
    {
        j = j - 1;
    }
    proof {
        lemma_leading_ws(c@, i as int);
        let u = c@.subrange(i as int, n as int);
        assert forall|k: int| j - i <= k < u.len() implies is_white_space(#[trigger] u[k]) by {
            assert(u[k] == c@[k + i]);
        }
        if j > i {
            assert(u[j - i - 1] == c@[j - 1]);
        }
        lemma_trailing_ws(u, j - i);
        assert(u.subrange(0, j - i) =~= c@.subrange(i as int, j as int));
    }
    let mut t: Vec<char> = Vec::new();
    let mut k: usize = i;
    while k < j
        invariant
            i <= k <= j <= c@.len(),
            t@ == c@.subrange(i as int, k as int),
        decreases j - k,
    {
        t.push(c[k]);
        k = k + 1;
        proof {
            assert(t@ =~= c@.subrange(i as int, k as int));
        }
    }
    t
}

/// The sixteen lower-case hexadecimal digits.
pub open spec fn hex_alphabet() -> Seq<char> {
    seq!['0', '1', '2', '3', '4', '5', '6', '7', '8', '9', 'a', 'b', 'c', 'd', 'e', 'f']
}

/// The decimal digits of `n`, most significant first, without leading zeros.
pub open spec fn decimal_digits(n: nat) -> Seq<char>
    decreases n,
{
    if n < 10 {
        seq![hex_alphabet()[n as int]]
    } else {
        decimal_digits(n / 10).push(hex_alphabet()[(n % 10) as int])
    }
}

/// The decimal text of an integer, with a leading `-` when it is negative.
pub open spec fn decimal_text(v: int) -> Seq<char> {
    if v < 0 {
        seq!['-'] + decimal_digits((-v) as nat)
    } else {
        decimal_digits(v as nat)
    }
}

/// One decimal digit as a character.
fn digit_char(d: u64) -> (c: char)
    requires
        d < 16,
    ensures
        c == hex_alphabet()[d as int],
{
    let table: Vec<char> = vec!['0', '1', '2', '3', '4', '5', '6', '7', '8', '9', 'a', 'b', 'c', 'd', 'e', 'f'];
    proof {
        assert(table@ =~= hex_alphabet());
    }
    table[d as usize]
}

/// The decimal digits of an unsigned integer.
pub fn u64_decimal(n: u64) -> (v: Vec<char>)
    ensures
        v@ == decimal_digits(n as nat),
    decreases n,
{
    if n < 10 {
        let mut v: Vec<char> = Vec::new();
        v.push(digit_char(n));
        proof {
            assert(v@ =~= seq![hex_alphabet()[n as int]]);
        }
        v
    } else {
        let mut v = u64_decimal(n / 10);
        v.push(digit_char(n % 10));
        v
    }
}

/// The decimal text of a signed integer (as `format!("{}", v)` writes it).
pub fn i64_decimal(v: i64) -> (r: Vec<char>)
    ensures
        r@ == decimal_text(v as int),
{
    if v < 0 {
        let mag: u64 = ((-(v + 1)) as u64) + 1;
        let digits = u64_decimal(mag);
        let mut r: Vec<char> = Vec::new();
        r.push('-');
        let mut k: usize = 0;
        while k < digits.len()
            invariant
                k <= digits@.len(),
                r@ == seq!['-'] + digits@.subrange(0, k as int),
            decreases digits@.len() - k,
        {
            r.push(digits[k]);
            k = k + 1;
            proof {
                assert(r@ =~= seq!['-'] + digits@.subrange(0, k as int));
            }
        }
        proof {
            assert(digits@.subrange(0, digits@.len() as int) =~= digits@);
        }
        r
    } else {
        u64_decimal(v as u64)
    }
}

/// `a` followed by `b`.
pub fn append_chars(a: &mut Vec<char>, b: &[char])
    ensures
        final(a)@ == old(a)@ + b@,
{
    let ghost a0 = a@;
    let mut k: usize = 0;
    while k < b.len()
        invariant
            k <= b@.len(),
            a@ == a0 + b@.subrange(0, k as int),
        decreases b@.len() - k,
    {
        a.push(b[k]);
        k = k + 1;
        proof {
            assert(a@ =~= a0 + b@.subrange(0, k as int));
        }
    }
    proof {
        assert(b@.subrange(0, b@.len() as int) =~= b@);
    }
}

/// `a` followed by the characters of `b`.
pub fn append_str(a: &mut Vec<char>, b: &str)
    ensures
        final(a)@ == old(a)@ + b@,
{
    let bc = chars_of(b);
    append_chars(a, bc.as_slice());
}

/// `a` followed by `b`.
pub fn append_usize(a: &mut Vec<usize>, b: &[usize])
    ensures
        final(a)@ == old(a)@ + b@,
{
    let ghost a0 = a@;
    let mut k: usize = 0;
    while k < b.len()
        invariant
            k <= b@.len(),
            a@ == a0 + b@.subrange(0, k as int),
        decreases b@.len() - k,
    {
        a.push(b[k]);
        k = k + 1;
        proof {
            assert(a@ =~= a0 + b@.subrange(0, k as int));
        }
    }
    proof {
        assert(b@.subrange(0, b@.len() as int) =~= b@);
    }
}

} // verus!
