//! Text helpers: decimal rendering of counters, blank detection, suffix
//! tests and the number syntax that a catalog attribute must have to count
//! as a stat value.

use vstd::prelude::*;

verus! {

/// The decimal digit character for `d` (`d < 10`).
pub open spec fn digit_char(d: nat) -> char {
    (48 + d) as char
}

pub open spec fn is_digit(c: char) -> bool {
    '0' <= c && c <= '9'
}

/// The decimal rendering of `n`: no sign, no leading zeros, "0" for zero.
pub open spec fn decimal(n: nat) -> Seq<char>
    decreases n,
{
    if n < 10 {
        seq![digit_char(n)]
    } else {
        decimal(n / 10).push(digit_char(n % 10))
    }
}

/// The value of a string of decimal digits.
pub open spec fn decimal_value(s: Seq<char>) -> nat
    decreases s.len(),
{
    if s.len() == 0 {
        0
    } else {
        decimal_value(s.drop_last()) * 10 + ((s.last() as int - 48) as nat)
    }
}

/// Reading a decimal rendering back gives the number.
pub proof fn lemma_decimal_value(n: nat)
    ensures
        decimal_value(decimal(n)) == n,
    decreases n,
{
    let d = n % 10;
    assert(digit_char(d) as int == 48 + d);
    if n >= 10 {
        lemma_decimal_value(n / 10);
        assert(decimal(n).drop_last() == decimal(n / 10));
        assert(decimal(n).last() == digit_char(d));
        assert(decimal_value(decimal(n)) == decimal_value(decimal(n / 10)) * 10 + d);
        assert((n / 10) * 10 + d == n);
    } else {
        assert(decimal(n).drop_last() =~= Seq::<char>::empty());
        assert(decimal(n).last() == digit_char(d));
        assert(decimal_value(decimal(n)) == decimal_value(decimal(n).drop_last()) * 10 + d);
    }
}

/// Distinct numbers have distinct decimal renderings.
pub proof fn lemma_decimal_injective(a: nat, b: nat)
    requires
        decimal(a) == decimal(b),
    ensures
        a == b,
{
    lemma_decimal_value(a);
    lemma_decimal_value(b);
}

/// The one-character text of the digit `d`.
fn digit_text(d: u64) -> (r: &'static str)
    requires
        d < 10,
    ensures
        r@ == seq![digit_char(d as nat)],
{
    let digits = "0123456789";
    proof {
        reveal_strlit("0123456789");
    }
    let r = digits.substring_char(d as usize, d as usize + 1);
    proof {
        let c = digits@[d as int];
        if d == 0 {
            assert(c == '0');
        } else if d == 1 {
            assert(c == '1');
        } else if d == 2 {
            assert(c == '2');
        } else if d == 3 {
            assert(c == '3');
        } else if d == 4 {
            assert(c == '4');
        } else if d == 5 {
            assert(c == '5');
        } else if d == 6 {
            assert(c == '6');
        } else if d == 7 {
            assert(c == '7');
        } else if d == 8 {
            assert(c == '8');
        } else {
            assert(c == '9');
        }
        assert(c == digit_char(d as nat));
        assert(r@ =~= seq![c]);
    }
    r
}

/// `n` in decimal (as `u64`'s `Display` writes it).
pub(crate) fn decimal_text(n: u64) -> (r: String)
    ensures
        r@ == decimal(n as nat),
    decreases n,
{
    if n < 10 {
        String::from_str(digit_text(n))
    } else {
        let mut s = decimal_text(n / 10);
        s.append(digit_text(n % 10));
        proof {
            assert(decimal(n as nat) == decimal((n / 10) as nat).push(digit_char((n % 10) as nat)));
            assert(decimal((n / 10) as nat) + seq![digit_char((n % 10) as nat)] =~= decimal(
                (n / 10) as nat,
            ).push(digit_char((n % 10) as nat)));
        }
        s
    }
}

/// The characters of a text, one by one.
pub fn chars_of(s: &str) -> (r: Vec<char>)
    ensures
        r@ == s@,
{
    let n = s.unicode_len();
    let mut out: Vec<char> = Vec::new();
    let mut i: usize = 0;
    while i < n
        invariant
            n == s@.len(),
            0 <= i <= n,
            out@ == s@.take(i as int),
        decreases n - i,
    {
        let c = s.get_char(i);
        out.push(c);
        assert(s@.take(i + 1) == s@.take(i as int).push(c));
        i = i + 1;
    }
    assert(s@.take(n as int) == s@);
    out
}

/// `s` ends with `suffix`.
pub open spec fn has_suffix(s: Seq<char>, suffix: Seq<char>) -> bool {
    s.len() >= suffix.len() && s.subrange(s.len() - suffix.len(), s.len() as int) == suffix
}

/// `s` starts with `c`.
pub open spec fn starts_with_char(s: Seq<char>, c: char) -> bool {
    s.len() > 0 && s[0] == c
}

/// Whether `s` ends with `suffix`.
pub fn ends_with(s: &str, suffix: &str) -> (r: bool)
    ensures
        r == has_suffix(s@, suffix@),
{
    let a = chars_of(s);
    let b = chars_of(suffix);
    if a.len() < b.len() {
        return false;
    }
    let start = a.len() - b.len();
    let mut i: usize = 0;
    while i < b.len()
        invariant
            a@ == s@,
            b@ == suffix@,
            start == a.len() - b.len(),
            0 <= i <= b.len(),
            forall|j: int| 0 <= j < i ==> a@[start + j] == b@[j],
        decreases b.len() - i,
    {
        if a[start + i] != b[i] {
            assert(s@.subrange(start as int, s@.len() as int)[i as int] != suffix@[i as int]);
            return false;
        }
        i = i + 1;
    }
    assert(s@.subrange(start as int, s@.len() as int) =~= suffix@);
    true
}

/// Whether `s` starts with `c`.
pub fn starts_with(s: &str, c: char) -> (r: bool)
    ensures
        r == starts_with_char(s@, c),
{
    if s.unicode_len() == 0 {
        false
    } else {
        s.get_char(0) == c
    }
}

/// Unicode `White_Space`, which is what `char::is_whitespace` and
/// `str::trim` go by.
pub open spec fn is_white_space(c: char) -> bool {
    let u = c as int;
    ||| 0x09 <= u <= 0x0d
    ||| u == 0x20
    ||| u == 0x85
    ||| u == 0xa0
    ||| u == 0x1680
    ||| 0x2000 <= u <= 0x200a
    ||| u == 0x2028
    ||| u == 0x2029
    ||| u == 0x202f
    ||| u == 0x205f
    ||| u == 0x3000
}

/// `s.trim()` is empty: every character is white space.
pub open spec fn is_blank_text(s: Seq<char>) -> bool {
    forall|i: int| 0 <= i < s.len() ==> is_white_space(#[trigger] s[i])
}

pub fn white_space(c: char) -> (r: bool)
    ensures
        r == is_white_space(c),
{
    let u = c as u32;
    (0x09 <= u && u <= 0x0d) || u == 0x20 || u == 0x85 || u == 0xa0 || u == 0x1680 || (0x2000
        <= u && u <= 0x200a) || u == 0x2028 || u == 0x2029 || u == 0x202f || u == 0x205f || u
        == 0x3000
}

/// Whether `s.trim().is_empty()`.
pub fn is_blank(s: &str) -> (r: bool)
    ensures
        r == is_blank_text(s@),
{
    let cs = chars_of(s);
    let mut i: usize = 0;
    while i < cs.len()
        invariant
            cs@ == s@,
            0 <= i <= cs.len(),
            forall|j: int| 0 <= j < i ==> is_white_space(#[trigger] s@[j]),
        decreases cs.len() - i,
    {
        if !white_space(cs[i]) {
            return false;
        }
        i = i + 1;
    }
    true
}

/// ASCII lower case of `c` (other characters unchanged).
pub open spec fn ascii_lower(c: char) -> char {
    if 'A' <= c && c <= 'Z' {
        ((c as int) + 32) as char
    } else {
        c
    }
}

/// `s`, lower-cased, is `word`.
pub open spec fn matches_word(s: Seq<char>, word: Seq<char>) -> bool {
    s.len() == word.len() && forall|i: int| 0 <= i < s.len() ==> ascii_lower(s[i]) == word[i]
}

pub open spec fn is_sign(c: char) -> bool {
    c == '+' || c == '-'
}

/// `s` without its leading sign, if it has one.
pub open spec fn unsigned_part(s: Seq<char>) -> Seq<char> {
    if s.len() > 0 && is_sign(s[0]) {
        s.drop_first()
    } else {
        s
    }
}

/// `Digit+`.
pub open spec fn is_digits(s: Seq<char>) -> bool {
    s.len() > 0 && forall|i: int| 0 <= i < s.len() ==> is_digit(s[i])
}

/// `Digit+ | Digit+ '.' Digit* | Digit* '.' Digit+`.
pub open spec fn is_mantissa(m: Seq<char>) -> bool {
    &&& exists|i: int| 0 <= i < m.len() && is_digit(m[i])
    &&& forall|i: int| 0 <= i < m.len() ==> is_digit(m[i]) || m[i] == '.'
    &&& forall|i: int, j: int| 0 <= i < j < m.len() && m[i] == '.' ==> m[j] != '.'
}

/// Nothing, or `'e' Sign? Digit+` (either case of `e`).
pub open spec fn is_exponent(e: Seq<char>) -> bool {
    e.len() == 0 || (ascii_lower(e[0]) == 'e' && is_digits(unsigned_part(e.drop_first())))
}

/// `Number ::= ( Digit+ | Digit+ '.' Digit* | Digit* '.' Digit+ ) Exp?`
pub open spec fn is_decimal_number(b: Seq<char>) -> bool {
    exists|k: int| 0 <= k <= b.len() && is_mantissa(b.take(k)) && is_exponent(b.skip(k))
}

/// The texts that `str::parse::<f64>` accepts, as its documentation gives
/// them: `Sign? ( 'inf' | 'infinity' | 'nan' | Number )`, compared in lower
/// case, with no white space around.
pub open spec fn is_number_text(s: Seq<char>) -> bool {
    let b = unsigned_part(s);
    ||| matches_word(b, seq!['i', 'n', 'f'])
    ||| matches_word(b, seq!['i', 'n', 'f', 'i', 'n', 'i', 't', 'y'])
    ||| matches_word(b, seq!['n', 'a', 'n'])
    ||| is_decimal_number(b)
}

fn lower(c: char) -> (r: char)
    ensures
        r == ascii_lower(c),
{
    if 'A' <= c && c <= 'Z' {
        let u = (c as u32) + 32;
        let r = char_from_ascii(u);
        r
    } else {
        c
    }
}

/// The character with ASCII code `u`.
fn char_from_ascii(u: u32) -> (r: char)
    requires
        u < 128,
    ensures
        r as int == u as int,
{
    let b = u as u8;
    b as char
}

/// Whether `cs[lo..hi]`, lower-cased, is `word`.
fn word_at(cs: &Vec<char>, lo: usize, word: &Vec<char>) -> (r: bool)
    requires
        lo <= cs.len(),
    ensures
        r == matches_word(cs@.subrange(lo as int, cs@.len() as int), word@),
{
    let b = Ghost(cs@.subrange(lo as int, cs@.len() as int));
    if cs.len() - lo != word.len() {
        return false;
    }
    let mut i: usize = 0;
    while i < word.len()
        invariant
            lo <= cs.len(),
            b@ == cs@.subrange(lo as int, cs@.len() as int),
            cs.len() - lo == word.len(),
            0 <= i <= word.len(),
            forall|j: int| 0 <= j < i ==> ascii_lower(b@[j]) == word@[j],
        decreases word.len() - i,
    {
        if lower(cs[lo + i]) != word[i] {
            assert(ascii_lower(b@[i as int]) != word@[i as int]);
            return false;
        }
        i = i + 1;
    }
    true
}

/// Whether `cs[lo..hi]` is a mantissa.
fn mantissa_at(cs: &Vec<char>, lo: usize, hi: usize) -> (r: bool)
    requires
        lo <= hi <= cs.len(),
    ensures
        r == is_mantissa(cs@.subrange(lo as int, hi as int)),
{
    let m = Ghost(cs@.subrange(lo as int, hi as int));
    let mut seen_digit = false;
    let mut seen_dot = false;
    let mut dot_at: usize = 0;
    let mut i: usize = lo;
    while i < hi
        invariant
            lo <= i <= hi <= cs.len(),
            m@ == cs@.subrange(lo as int, hi as int),
            seen_digit <==> exists|j: int| 0 <= j < i - lo && is_digit(m@[j]),
            forall|j: int| 0 <= j < i - lo ==> is_digit(m@[j]) || m@[j] == '.',
            forall|j: int, k: int| 0 <= j < k < i - lo && m@[j] == '.' ==> m@[k] != '.',
            seen_dot <==> exists|j: int| 0 <= j < i - lo && m@[j] == '.',
            seen_dot ==> lo <= dot_at < i && m@[dot_at - lo] == '.',
        decreases hi - i,
    {
        let c = cs[i];
        assert(m@[i - lo] == c);
        if '0' <= c && c <= '9' {
            seen_digit = true;
        } else if c == '.' {
            if seen_dot {
                assert(m@[dot_at - lo] == '.' && m@[i - lo] == '.');
                return false;
            }
            seen_dot = true;
            dot_at = i;
        } else {
            return false;
        }
        i = i + 1;
    }
    seen_digit
}

/// Whether `cs[k..]` is an exponent part (or empty).
fn exponent_at(cs: &Vec<char>, k: usize) -> (r: bool)
    requires
        k <= cs.len(),
    ensures
        r == is_exponent(cs@.subrange(k as int, cs@.len() as int)),
{
    let e = Ghost(cs@.subrange(k as int, cs@.len() as int));
    if k == cs.len() {
        return true;
    }
    if lower(cs[k]) != 'e' {
        return false;
    }
    let mut start = k + 1;
    if start < cs.len() && (cs[start] == '+' || cs[start] == '-') {
        start = start + 1;
    }
    proof {
        let t = e@.drop_first();
        assert(t =~= cs@.subrange(k + 1, cs@.len() as int));
        assert(unsigned_part(t) =~= cs@.subrange(start as int, cs@.len() as int));
    }
    if start == cs.len() {
        return false;
    }
    let mut i = start;
    while i < cs.len()
        invariant
            k < start <= i <= cs.len(),
            e@ == cs@.subrange(k as int, cs@.len() as int),
            e@.len() > 0,
            ascii_lower(e@[0]) == 'e',
            unsigned_part(e@.drop_first()) == cs@.subrange(start as int, cs@.len() as int),
            forall|j: int| start <= j < i ==> is_digit(cs@[j]),
        decreases cs.len() - i,
    {
        if !('0' <= cs[i] && cs[i] <= '9') {
            proof {
                let u = cs@.subrange(start as int, cs@.len() as int);
                assert(!is_digit(u[i - start]));
            }
            return false;
        }
        i = i + 1;
    }
    true
}

/// Whether `str::parse::<f64>` accepts `s`.
pub fn is_number(s: &str) -> (r: bool)
    ensures
        r == is_number_text(s@),
{
    let cs = chars_of(s);
    let mut lo: usize = 0;
    if cs.len() > 0 && (cs[0] == '+' || cs[0] == '-') {
        lo = 1;
    }
    let ghost b = unsigned_part(s@);
    assert(b =~= cs@.subrange(lo as int, cs@.len() as int));
    let inf = vec!['i', 'n', 'f'];
    let infinity = vec!['i', 'n', 'f', 'i', 'n', 'i', 't', 'y'];
    let nan = vec!['n', 'a', 'n'];
    assert(inf@ =~= seq!['i', 'n', 'f']);
    assert(infinity@ =~= seq!['i', 'n', 'f', 'i', 'n', 'i', 't', 'y']);
    assert(nan@ =~= seq!['n', 'a', 'n']);
    if word_at(&cs, lo, &inf) || word_at(&cs, lo, &infinity) || word_at(&cs, lo, &nan) {
        return true;
    }
    // the exponent starts at the first `e`
    let mut k = lo;
    while k < cs.len() && lower(cs[k]) != 'e'
        invariant
            lo <= k <= cs.len(),
            forall|j: int| lo <= j < k ==> ascii_lower(cs@[j]) != 'e',
        decreases cs.len() - k,
    {
        k = k + 1;
    }
    let ok = mantissa_at(&cs, lo, k) && exponent_at(&cs, k);
    proof {
        let kk = k - lo;
        assert(b.take(kk) =~= cs@.subrange(lo as int, k as int));
        assert(b.skip(kk) =~= cs@.subrange(k as int, cs@.len() as int));
        if ok {
            assert(is_mantissa(b.take(kk)) && is_exponent(b.skip(kk)));
        } else {
            assert forall|k2: int| 0 <= k2 <= b.len() implies !(is_mantissa(b.take(k2))
                && is_exponent(b.skip(k2))) by {
                if k2 < kk {
                    assert(b.skip(k2)[0] == cs@[lo + k2]);
                } else if k2 > kk {
                    assert(b.take(k2)[kk] == cs@[k as int]);
                    assert(ascii_lower(cs@[k as int]) == 'e');
                } else {
                    assert(b.take(k2) == b.take(kk));
                }
            }
        }
    }
    ok
}

} // verus!
