//! Small string operations that the accounting logic needs, over the character view
//! of strings.
use vstd::prelude::*;
use vstd::string::*;

verus! {

/// The position of the first `c` in `s`, if any.
pub open spec fn first_index_of(s: Seq<char>, c: char) -> Option<int>
    decreases s.len(),
{
    if s.len() == 0 {
        None
    } else if s[0] == c {
        Some(0)
    } else {
        match first_index_of(s.drop_first(), c) {
            Some(i) => Some(i + 1),
            None => None,
        }
    }
}

/// The part of `s` before the first `c` (all of `s` when there is none): the first
/// piece that splitting `s` at `c` gives.
pub open spec fn before_first(s: Seq<char>, c: char) -> Seq<char> {
    match first_index_of(s, c) {
        Some(i) => s.take(i),
        None => s,
    }
}

pub proof fn lemma_first_index_of(s: Seq<char>, c: char)
    ensures
        first_index_of(s, c) matches Some(i) ==> 0 <= i < s.len() && s[i] == c && forall|j: int|
            0 <= j < i ==> s[j] != c,
        first_index_of(s, c) is None ==> forall|j: int| 0 <= j < s.len() ==> s[j] != c,
        (first_index_of(s, c) is Some) == s.contains(c),
    decreases s.len(),
{
    if s.len() > 0 {
        lemma_first_index_of(s.drop_first(), c);
        if s[0] != c {
            assert forall|j: int| 0 < j < s.len() implies s[j] == s.drop_first()[j - 1] by {}
            if s.contains(c) {
                let k = choose|k: int| 0 <= k < s.len() && s[k] == c;
                assert(s.drop_first()[k - 1] == c);
                assert(s.drop_first().contains(c));
            }
            if s.drop_first().contains(c) {
                let k = choose|k: int| 0 <= k < s.drop_first().len() && s.drop_first()[k] == c;
                assert(s[k + 1] == c);
            }
        } else {
            assert(s.contains(c)) by {
                assert(s[0] == c);
            }
        }
    }
}

/// Whether two strings hold the same characters.
pub fn str_eq(a: &str, b: &str) -> (r: bool)
    ensures
        r == (a@ == b@),
{
    let x: String = a.to_owned();
    let y: String = b.to_owned();
    x == y
}

/// The position of the first `c` in `s`, if any.
pub fn find_char(s: &str, c: char) -> (r: Option<usize>)
    ensures
        r matches Some(i) ==> first_index_of(s@, c) == Some(i as int),
        r is None ==> first_index_of(s@, c) is None,
{
    proof {
        lemma_first_index_of(s@, c);
    }
    let n = s.unicode_len();
    let mut i: usize = 0;
    while i < n
        invariant
            n == s@.len(),
            i <= n,
            forall|j: int| 0 <= j < i ==> s@[j] != c,
        decreases n - i,
    {
        if s.get_char(i) == c {
            proof {
                lemma_first_index_eq(s@, c, i as int);
            }
            return Some(i);
        }
        i = i + 1;
    }
    proof {
        if first_index_of(s@, c) is Some {
            let k = first_index_of(s@, c)->0;
            assert(s@[k] == c);
        }
    }
    None
}

proof fn lemma_first_index_eq(s: Seq<char>, c: char, i: int)
    requires
        0 <= i < s.len(),
        s[i] == c,
        forall|j: int| 0 <= j < i ==> s[j] != c,
    ensures
        first_index_of(s, c) == Some(i),
{
    lemma_first_index_of(s, c);
    assert(s.contains(c)) by {
        assert(s[i] == c);
    }
    let k = first_index_of(s, c)->0;
    if k < i {
        assert(s[k] != c);
    } else if k > i {
        assert(s[i] != c);
    }
}

/// Whether `s` holds the character `c`.
pub fn contains_char(s: &str, c: char) -> (r: bool)
    ensures
        r == s@.contains(c),
{
    proof {
        lemma_first_index_of(s@, c);
    }
    find_char(s, c).is_some()
}

/// The part of `s` before the first `c` (all of `s` when there is none).
pub fn before_first_char<'a>(s: &'a str, c: char) -> (r: &'a str)
    ensures
        r@ == before_first(s@, c),
{
    proof {
        lemma_first_index_of(s@, c);
    }
    match find_char(s, c) {
        Some(i) => s.substring_char(0, i),
        None => s,
    }
}

/// A new `String` with the characters of `s`.
pub fn string_from(s: &str) -> (r: String)
    ensures
        r@ == s@,
{
    s.to_owned()
}

/// The characters of `a` followed by those of `b`.
pub fn concat(a: &str, b: &str) -> (r: String)
    ensures
        r@ == a@ + b@,
{
    let mut x: String = a.to_owned();
    x.append(b);
    x
}

/// White space as `str::trim` (std) reads it: the characters with the Unicode property
/// White_Space.
pub open spec fn is_white_space(c: char) -> bool {
    let u = c as u32;
    ||| 0x9 <= u <= 0xd
    ||| u == 0x20
    ||| u == 0x85
    ||| u == 0xa0
    ||| u == 0x1680
    ||| 0x2000 <= u <= 0x200a
    ||| u == 0x2028
    ||| u == 0x2029
    ||| u == 0x202f
    ||| u == 0x205f
    ||| u == 0x3000
}

/// `s` without its leading white space.
pub open spec fn trim_leading(s: Seq<char>) -> Seq<char>
    decreases s.len(),
{
    if s.len() > 0 && is_white_space(s[0]) {
        trim_leading(s.skip(1))
    } else {
        s
    }
}

/// `s` without its trailing white space.
pub open spec fn trim_trailing(s: Seq<char>) -> Seq<char>
    decreases s.len(),
{
    if s.len() > 0 && is_white_space(s.last()) {
        trim_trailing(s.drop_last())
    } else {
        s
    }
}

/// What `str::trim` (std) gives back for a string: the string without leading and
/// trailing white space.
pub open spec fn std_trim(s: Seq<char>) -> Seq<char> {
    trim_trailing(trim_leading(s))
}

/// `str::trim` (std): the string without leading and trailing white space.
#[verifier::external_body]
pub(crate) fn trim(s: &str) -> (r: String)
    ensures
        r@ == std_trim(s@),
{
    s.trim().to_string()
}

/// What `str::to_lowercase` (std) gives back for a string.
pub uninterp spec fn std_to_lowercase(s: Seq<char>) -> Seq<char>;

/// `str::to_lowercase` (std); the result is named.
#[verifier::external_body]
pub(crate) fn to_lowercase(s: &str) -> (r: String)
    ensures
        r@ == std_to_lowercase(s@),
{
    s.to_lowercase()
}

/// What `str::to_uppercase` (std) gives back for a string.
pub uninterp spec fn std_to_uppercase(s: Seq<char>) -> Seq<char>;

/// `str::to_uppercase` (std); the result is named.
#[verifier::external_body]
pub(crate) fn to_uppercase(s: &str) -> (r: String)
    ensures
        r@ == std_to_uppercase(s@),
{
    s.to_uppercase()
}

/// `c` with an ASCII capital letter made small, as `char::to_ascii_lowercase` (std) does.
pub open spec fn ascii_lower(c: char) -> char {
    if 'A' <= c && c <= 'Z' {
        ((c as u32) + 32) as char
    } else {
        c
    }
}

/// What `str::to_ascii_lowercase` (std) gives back for a string: each ASCII capital letter
/// made small, every other character unchanged.
pub open spec fn std_to_ascii_lowercase(s: Seq<char>) -> Seq<char> {
    s.map_values(|c: char| ascii_lower(c))
}

/// `str::to_ascii_lowercase` (std): each ASCII capital letter made small.
#[verifier::external_body]
pub(crate) fn to_ascii_lowercase(s: &str) -> (r: String)
    ensures
        r@ == std_to_ascii_lowercase(s@),
{
    s.to_ascii_lowercase()
}

/// The characters of `s` other than commas.
pub open spec fn without_commas(s: Seq<char>) -> Seq<char> {
    s.filter(|c: char| c != ',')
}

/// `str::replace(",", "")` (std): every comma removed, nothing else changed.
#[verifier::external_body]
pub(crate) fn remove_commas(s: &str) -> (r: String)
    ensures
        r@ == without_commas(s@),
{
    s.replace(",", "")
}


pub open spec fn is_ascii_digit(c: char) -> bool {
    '0' <= c && c <= '9'
}

/// The value of a string of decimal digits.
pub open spec fn digits_value(d: Seq<char>) -> nat
    decreases d.len(),
{
    if d.len() == 0 {
        0
    } else {
        digits_value(d.drop_last()) * 10 + ((d.last() as int - '0' as int) as nat)
    }
}

/// What `str::parse::<u16>` (std) gives back, as its documentation describes it: an
/// optional `+` followed by at least one decimal digit, whose value fits in a `u16`.
pub open spec fn u16_from_str(s: Seq<char>) -> Option<u16> {
    let d = if s.len() > 0 && s[0] == '+' {
        s.skip(1)
    } else {
        s
    };
    if d.len() > 0 && (forall|i: int| 0 <= i < d.len() ==> is_ascii_digit(#[trigger] d[i]))
        && digits_value(d) <= 65535 {
        Some(digits_value(d) as u16)
    } else {
        None
    }
}

/// `str::parse::<u16>` (std).
#[verifier::external_body]
pub(crate) fn parse_u16(s: &str) -> (r: Option<u16>)
    ensures
        r == u16_from_str(s@),
{
    s.parse::<u16>().ok()
}


/// The decimal digits of a natural number, without leading zeros (`0` for zero).
pub open spec fn decimal_digits(n: nat) -> Seq<char>
    decreases n,
{
    if n < 10 {
        seq![(('0' as nat) + n) as char]
    } else {
        decimal_digits(n / 10) + seq![(('0' as nat) + n % 10) as char]
    }
}

/// `u64::to_string` (std): the decimal digits of the number.
#[verifier::external_body]
pub(crate) fn u64_to_string(n: u64) -> (r: String)
    ensures
        r@ == decimal_digits(n as nat),
{
    n.to_string()
}

} // verus!
