//! Character-level text utilities: whitespace trimming and decimal
//! integer parsing/formatting, specified over sequences of characters.

use vstd::prelude::*;

verus! {

/// The Unicode `White_Space` characters, the set stripped by `trim`.
pub open spec fn is_space_char(c: char) -> bool {
    let u = c as u32;
    ||| u == 0x20
    ||| (0x9 <= u && u <= 0xD)
    ||| u == 0x85
    ||| u == 0xA0
    ||| u == 0x1680
    ||| (0x2000 <= u && u <= 0x200A)
    ||| u == 0x2028
    ||| u == 0x2029
    ||| u == 0x202F
    ||| u == 0x205F
    ||| u == 0x3000
}

pub fn is_space(c: char) -> (r: bool)
    ensures
        r == is_space_char(c),
{
    let u = c as u32;
    u == 0x20 || (0x9 <= u && u <= 0xD) || u == 0x85 || u == 0xA0 || u == 0x1680 || (0x2000 <= u
        && u <= 0x200A) || u == 0x2028 || u == 0x2029 || u == 0x202F || u == 0x205F || u == 0x3000
}

/// `s` with its leading whitespace removed.
pub open spec fn trim_start_spec(s: Seq<char>) -> Seq<char>
    decreases s.len(),
{
    if s.len() == 0 {
        s
    } else if is_space_char(s[0]) {
        trim_start_spec(s.drop_first())
    } else {
        s
    }
}

/// `s` with its trailing whitespace removed.
pub open spec fn trim_end_spec(s: Seq<char>) -> Seq<char>
    decreases s.len(),
{
    if s.len() == 0 {
        s
    } else if is_space_char(s.last()) {
        trim_end_spec(s.drop_last())
    } else {
        s
    }
}

/// `s` with surrounding whitespace removed.
pub open spec fn trim_spec(s: Seq<char>) -> Seq<char> {
    trim_end_spec(trim_start_spec(s))
}

/// Whitespace-trimmed slice of `s`, the character-sequence analogue of
/// `str::trim`.
pub fn trim(s: &str) -> (r: &str)
    ensures
        r@ == trim_spec(s@),
{
    let n = s.unicode_len();
    proof {
        assert(s@.subrange(0, n as int) =~= s@);
    }
    let mut start: usize = 0;
    while start < n && is_space(s.get_char(start))
        invariant
            start <= n,
            n == s@.len(),
            trim_start_spec(s@) == trim_start_spec(s@.subrange(start as int, n as int)),
        decreases n - start,
    {
        proof {
            let sub = s@.subrange(start as int, n as int);
            assert(sub.drop_first() =~= s@.subrange(start as int + 1, n as int));
        }
        start = start + 1;
    }
    proof {
        let sub = s@.subrange(start as int, n as int);
        if start < n {
            assert(!is_space_char(sub[0]));
        }
        assert(trim_start_spec(s@) == sub);
    }
    let mut end: usize = n;
    while end > start && is_space(s.get_char(end - 1))
        invariant
            start <= end <= n,
            n == s@.len(),
            trim_start_spec(s@) == s@.subrange(start as int, n as int),
            trim_end_spec(s@.subrange(start as int, n as int)) == trim_end_spec(
                s@.subrange(start as int, end as int),
            ),
        decreases end,
    {
        proof {
            let sub = s@.subrange(start as int, end as int);
            assert(sub.last() == s@[end - 1]);
            assert(sub.drop_last() =~= s@.subrange(start as int, end as int - 1));
        }
        end = end - 1;
    }
    proof {
        let sub = s@.subrange(start as int, end as int);
        if end > start {
            assert(!is_space_char(sub.last()));
        }
        assert(trim_end_spec(s@.subrange(start as int, end as int)) == sub);
    }
    s.substring_char(start, end)
}

/// Character-wise string equality.
pub fn str_eq(a: &str, b: &str) -> (r: bool)
    ensures
        r == (a@ == b@),
{
    let n = a.unicode_len();
    let m = b.unicode_len();
    if n != m {
        return false;
    }
    let mut i: usize = 0;
    while i < n
        invariant
            i <= n,
            n == a@.len(),
            n == b@.len(),
            forall|k: int| 0 <= k < i ==> a@[k] == b@[k],
        decreases n - i,
    {
        if a.get_char(i) != b.get_char(i) {
            return false;
        }
        i = i + 1;
    }
    proof {
        assert(a@ =~= b@);
    }
    true
}

/// An ASCII decimal digit.
pub open spec fn is_digit_char(c: char) -> bool {
    0x30 <= c as u32 && c as u32 <= 0x39
}

pub open spec fn digit_val(c: char) -> int {
    c as u32 - 0x30
}

pub open spec fn all_digits(s: Seq<char>) -> bool {
    forall|i: int| 0 <= i < s.len() ==> is_digit_char(#[trigger] s[i])
}

/// The number denoted by a sequence of decimal digits, most significant first.
pub open spec fn dec_val(s: Seq<char>) -> int
    decreases s.len(),
{
    if s.len() == 0 {
        0
    } else {
        dec_val(s.drop_last()) * 10 + digit_val(s.last())
    }
}

/// Whether `s` is accepted as a base-10 non-negative integer that fits
/// in `usize`: non-empty, digits only, value in range.
pub open spec fn dec_parses(s: Seq<char>) -> bool {
    s.len() > 0 && all_digits(s) && dec_val(s) <= usize::MAX as int
}

/// `s` without its single leading plus sign, if it has one ahead of
/// anything else.
pub open spec fn plus_stripped(s: Seq<char>) -> Seq<char> {
    if s.len() >= 2 && s[0] == '+' {
        s.drop_first()
    } else {
        s
    }
}

/// What `str::parse::<usize>` accepts: digits after at most one leading
/// plus sign, value in range.
pub open spec fn num_parses(s: Seq<char>) -> bool {
    dec_parses(plus_stripped(s))
}

/// The number `s` denotes, when it parses.
pub open spec fn num_val(s: Seq<char>) -> int {
    dec_val(plus_stripped(s))
}

pub proof fn lemma_dec_val_nonneg(s: Seq<char>)
    requires
        all_digits(s),
    ensures
        dec_val(s) >= 0,
    decreases s.len(),
{
    if s.len() > 0 {
        assert(all_digits(s.drop_last()));
        lemma_dec_val_nonneg(s.drop_last());
    }
}

/// Dropping trailing digits can only shrink the denoted value.
pub proof fn lemma_dec_val_prefix_le(s: Seq<char>, k: int)
    requires
        all_digits(s),
        0 <= k <= s.len(),
    ensures
        dec_val(s.subrange(0, k)) <= dec_val(s),
    decreases s.len() - k,
{
    if k == s.len() {
        assert(s.subrange(0, k) =~= s);
    } else {
        let t = s.subrange(0, k + 1);
        assert(t.drop_last() =~= s.subrange(0, k));
        assert(all_digits(t)) by {
            assert(forall|i: int| 0 <= i < t.len() ==> t[i] == s[i]);
        }
        lemma_dec_val_nonneg(t.drop_last());
        assert(dec_val(s.subrange(0, k)) <= dec_val(t));
        lemma_dec_val_prefix_le(s, k + 1);
    }
}

/// Parse a base-10 non-negative integer, the character-sequence analogue
/// of `str::parse::<usize>`: digits after at most one leading plus sign;
/// `None` on anything else or on overflow.
pub fn parse_dec(s: &str) -> (r: Option<usize>)
    ensures
        match r {
            Some(v) => num_parses(s@) && v as int == num_val(s@),
            None => !num_parses(s@),
        },
{
    let n = s.unicode_len();
    if n == 0 {
        return None;
    }
    let start: usize = if n >= 2 && s.get_char(0) == '+' {
        1
    } else {
        0
    };
    let ghost b = plus_stripped(s@);
    proof {
        assert(b =~= s@.subrange(start as int, n as int));
    }
    let mut i: usize = start;
    let mut val: usize = 0;
    while i < n
        invariant
            start <= i <= n,
            n == s@.len(),
            b == plus_stripped(s@),
            b =~= s@.subrange(start as int, n as int),
            all_digits(b.subrange(0, i - start)),
            val as int == dec_val(b.subrange(0, i - start)),
        decreases n - i,
    {
        let c = s.get_char(i);
        let u = c as u32;
        proof {
            assert(b[i - start] == s@[i as int]);
        }
        if u < 0x30 || u > 0x39 {
            proof {
                assert(!is_digit_char(b[i - start]));
            }
            return None;
        }
        let d = (u - 0x30) as usize;
        proof {
            assert(b.subrange(0, i - start + 1).drop_last() =~= b.subrange(0, i - start));
            assert(all_digits(b.subrange(0, i - start + 1))) by {
                let t = b.subrange(0, i - start + 1);
                assert(forall|j: int| 0 <= j < t.len() ==> t[j] == b[j]);
            }
        }
        if val > (usize::MAX - d) / 10 {
            proof {
                let m = usize::MAX as int;
                assert(val * 10 + d > m) by (nonlinear_arith)
                    requires
                        val > (m - d) / 10,
                        0 <= d <= 9,
                        val >= 0,
                        m >= 0,
                {}
                if all_digits(b) {
                    lemma_dec_val_prefix_le(b, i - start + 1);
                }
            }
            return None;
        }
        proof {
            let m = usize::MAX as int;
            assert(val * 10 + d <= m) by (nonlinear_arith)
                requires
                    val <= (m - d) / 10,
                    0 <= d <= 9,
                    val >= 0,
                    m >= 0,
            {}
        }
        val = val * 10 + d;
        i = i + 1;
    }
    proof {
        assert(b.subrange(0, n - start) =~= b);
        if start == 1 {
            assert(b.len() > 0);
        }
    }
    Some(val)
}

/// The decimal digit with value `d`.
pub open spec fn dec_digit_char(d: int) -> char {
    ((0x30 + d) as u8) as char
}

/// The shortest decimal rendering of `n`, the analogue of
/// `usize::to_string`.
pub open spec fn dec_digits(n: nat) -> Seq<char>
    decreases n,
{
    if n < 10 {
        seq![dec_digit_char(n as int)]
    } else {
        dec_digits(n / 10).push(dec_digit_char((n % 10) as int))
    }
}

pub proof fn lemma_dec_digits_are_digits(n: nat)
    ensures
        dec_digits(n).len() >= 1,
        all_digits(dec_digits(n)),
    decreases n,
{
    if n < 10 {
        assert(is_digit_char(dec_digit_char(n as int)));
    } else {
        lemma_dec_digits_are_digits(n / 10);
        assert(is_digit_char(dec_digit_char((n % 10) as int)));
        assert(forall|i: int|
            0 <= i < dec_digits(n).len() - 1 ==> #[trigger] dec_digits(n)[i] == dec_digits(
                n / 10,
            )[i]);
    }
}

/// Formatting then reading back a number is the identity.
pub proof fn lemma_dec_val_of_digits(n: nat)
    ensures
        dec_val(dec_digits(n)) == n,
    decreases n,
{
    if n < 10 {
        assert(dec_digits(n).drop_last() =~= Seq::<char>::empty());
        assert(dec_val(Seq::<char>::empty()) == 0);
        assert(dec_digits(n).last() == dec_digit_char(n as int));
        assert(digit_val(dec_digit_char(n as int)) == n);
        assert(dec_val(dec_digits(n)) == 0 * 10 + digit_val(dec_digits(n).last()));
    } else {
        lemma_dec_val_of_digits(n / 10);
        assert(dec_digits(n).drop_last() =~= dec_digits(n / 10));
        assert(digit_val(dec_digit_char((n % 10) as int)) == n % 10);
        assert(dec_val(dec_digits(n)) == (n / 10) * 10 + n % 10);
        assert((n / 10) * 10 + n % 10 == n) by {
            vstd::arithmetic::div_mod::lemma_fundamental_div_mod(n as int, 10);
        }
    }
}

fn digit_string(d: usize) -> (r: String)
    requires
        d < 10,
    ensures
        r@ == seq![dec_digit_char(d as int)],
{
    let r = if d == 0 {
        String::from_str("0")
    } else if d == 1 {
        String::from_str("1")
    } else if d == 2 {
        String::from_str("2")
    } else if d == 3 {
        String::from_str("3")
    } else if d == 4 {
        String::from_str("4")
    } else if d == 5 {
        String::from_str("5")
    } else if d == 6 {
        String::from_str("6")
    } else if d == 7 {
        String::from_str("7")
    } else if d == 8 {
        String::from_str("8")
    } else {
        String::from_str("9")
    };
    proof {
        reveal_strlit("0");
        reveal_strlit("1");
        reveal_strlit("2");
        reveal_strlit("3");
        reveal_strlit("4");
        reveal_strlit("5");
        reveal_strlit("6");
        reveal_strlit("7");
        reveal_strlit("8");
        reveal_strlit("9");
        assert(r@ =~= seq![dec_digit_char(d as int)]);
    }
    r
}

/// Decimal rendering of `n`, the analogue of `usize::to_string`.
pub fn to_dec_string(n: usize) -> (r: String)
    ensures
        r@ == dec_digits(n as nat),
    decreases n,
{
    if n < 10 {
        digit_string(n)
    } else {
        let mut r = to_dec_string(n / 10);
        let d = digit_string(n % 10);
        r.append(d.as_str());
        proof {
            assert(r@ =~= dec_digits(n as nat));
        }
        r
    }
}

} // verus!
