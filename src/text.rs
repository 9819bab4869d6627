use vstd::prelude::*;
use vstd::string::{StrSliceExecFns, StringExecFns};
use crate::error::Error;

verus! {

/// `a` sorts strictly before `b`: at the first position where they differ
/// `a` has the smaller character, or `a` is a proper prefix of `b`. This is
/// the order of `str`'s comparison, since UTF-8 keeps the order of code
/// points.
pub open spec fn before(a: Seq<char>, b: Seq<char>) -> bool {
    exists|k: int|
        0 <= k <= a.len() && k <= b.len() && a.subrange(0, k) == b.subrange(0, k) && ((k == a.len()
            && k < b.len()) || (k < a.len() && k < b.len() && (a[k] as u32) < (b[k] as u32)))
}

pub proof fn lemma_before_irreflexive(a: Seq<char>)
    ensures
        !before(a, a),
{
}

pub proof fn lemma_before_transitive(a: Seq<char>, b: Seq<char>, c: Seq<char>)
    requires
        before(a, b),
        before(b, c),
    ensures
        before(a, c),
{
    let k1 = choose|k: int|
        0 <= k <= a.len() && k <= b.len() && a.subrange(0, k) == b.subrange(0, k) && ((k == a.len()
            && k < b.len()) || (k < a.len() && k < b.len() && (a[k] as u32) < (b[k] as u32)));
    let k2 = choose|k: int|
        0 <= k <= b.len() && k <= c.len() && b.subrange(0, k) == c.subrange(0, k) && ((k == b.len()
            && k < c.len()) || (k < b.len() && k < c.len() && (b[k] as u32) < (c[k] as u32)));
    let k = if k1 <= k2 { k1 } else { k2 };
    assert(a.subrange(0, k) =~= b.subrange(0, k)) by {
        assert forall|i: int| 0 <= i < k implies a.subrange(0, k)[i] == b.subrange(0, k)[i] by {
            assert(a.subrange(0, k1)[i] == b.subrange(0, k1)[i]);
        };
    };
    assert(b.subrange(0, k) =~= c.subrange(0, k)) by {
        assert forall|i: int| 0 <= i < k implies b.subrange(0, k)[i] == c.subrange(0, k)[i] by {
            assert(b.subrange(0, k2)[i] == c.subrange(0, k2)[i]);
        };
    };
    if k1 < k2 {
        assert(b.subrange(0, k2)[k1] == c.subrange(0, k2)[k1]);
    } else if k2 < k1 {
        assert(a.subrange(0, k1)[k2] == b.subrange(0, k1)[k2]);
    }
}

/// Whether `a` sorts strictly before `b`.
pub fn code_before(a: &str, b: &str) -> (r: bool)
    ensures
        r == before(a@, b@),
{
    let la = a.unicode_len();
    let lb = b.unicode_len();
    let mut i: usize = 0;
    while i < la && i < lb && a.get_char(i) == b.get_char(i)
        invariant
            la == a@.len(),
            lb == b@.len(),
            i <= la,
            i <= lb,
            a@.subrange(0, i as int) == b@.subrange(0, i as int),
        decreases la - i,
    {
        assert(a@.subrange(0, i + 1) =~= a@.subrange(0, i as int).push(a@[i as int]));
        assert(b@.subrange(0, i + 1) =~= b@.subrange(0, i as int).push(b@[i as int]));
        i += 1;
    }
    let r = if i == la {
        i < lb
    } else if i == lb {
        false
    } else {
        (a.get_char(i) as u32) < (b.get_char(i) as u32)
    };
    proof {
        if r {
            assert(a@.subrange(0, i as int) == b@.subrange(0, i as int));
        } else if before(a@, b@) {
            let k = choose|k: int|
                0 <= k <= a@.len() && k <= b@.len() && a@.subrange(0, k) == b@.subrange(0, k) && ((k
                    == a@.len() && k < b@.len()) || (k < a@.len() && k < b@.len() && (a@[k] as u32)
                    < (b@[k] as u32)));
            if k < i {
                assert(a@.subrange(0, i as int)[k] == a@[k]);
                assert(b@.subrange(0, i as int)[k] == b@[k]);
            } else if k > i {
                assert(a@.subrange(0, k)[i as int] == a@[i as int]);
                assert(b@.subrange(0, k)[i as int] == b@[i as int]);
            }
        }
    }
    r
}


/// The decimal digit character of `d`.
pub open spec fn digit_char(d: nat) -> char {
    if d == 0 {
        '0'
    } else if d == 1 {
        '1'
    } else if d == 2 {
        '2'
    } else if d == 3 {
        '3'
    } else if d == 4 {
        '4'
    } else if d == 5 {
        '5'
    } else if d == 6 {
        '6'
    } else if d == 7 {
        '7'
    } else if d == 8 {
        '8'
    } else {
        '9'
    }
}

/// The decimal text of `n`, without leading zeros.
pub open spec fn digits_of(n: nat) -> Seq<char>
    decreases n,
{
    if n < 10 {
        seq![digit_char(n)]
    } else {
        digits_of(n / 10).push(digit_char(n % 10))
    }
}

fn digit_str(d: u64) -> (r: &'static str)
    requires
        d < 10,
    ensures
        r@ == seq![digit_char(d as nat)],
{
    proof {
        reveal_strlit("0");
        reveal_strlit("1");
        reveal_strlit("2");
        reveal_strlit("3");
        reveal_strlit("4");
        reveal_strlit("5");
        reveal_strlit("6");
        reveal_strlit("7");
        reveal_strlit("8");
        reveal_strlit("9");
    }
    let r = if d == 0 {
        "0"
    } else if d == 1 {
        "1"
    } else if d == 2 {
        "2"
    } else if d == 3 {
        "3"
    } else if d == 4 {
        "4"
    } else if d == 5 {
        "5"
    } else if d == 6 {
        "6"
    } else if d == 7 {
        "7"
    } else if d == 8 {
        "8"
    } else {
        "9"
    };
    assert(r@ =~= seq![digit_char(d as nat)]);
    r
}

/// The decimal text of `n`.
pub fn u64_string(n: u64) -> (r: String)
    ensures
        r@ == digits_of(n as nat),
    decreases n,
{
    if n < 10 {
        digit_str(n).to_owned()
    } else {
        let mut s = u64_string(n / 10);
        s.append(digit_str(n % 10));
        s
    }
}

/// The decimal text of `n`, with a leading '-' when negative.
pub fn int_string(n: i64) -> (r: String)
    ensures
        r@ == crate::plan::int_text(n as int),
{
    if n < 0 {
        let m: u64 = (-(n as i128)) as u64;
        let mut s = "-".to_owned();
        proof { reveal_strlit("-"); }
        let d = u64_string(m);
        s.append(d.as_str());
        assert(s@ =~= seq!['-'] + digits_of((-n) as nat));
        s
    } else {
        u64_string(n as u64)
    }
}

/// The first position, at or after `i`, that holds `c`; the length when
/// there is none.
pub open spec fn find_from(s: Seq<char>, c: char, i: int) -> int
    decreases s.len() - i,
{
    if i >= s.len() {
        s.len() as int
    } else if s[i] == c {
        i
    } else {
        find_from(s, c, i + 1)
    }
}

pub proof fn lemma_find_from(s: Seq<char>, c: char, i: int)
    requires
        0 <= i <= s.len(),
    ensures
        i <= find_from(s, c, i) <= s.len(),
    decreases s.len() - i,
{
    if i < s.len() {
        lemma_find_from(s, c, i + 1);
    }
}

fn find_char(s: &str, c: char, from: usize) -> (r: usize)
    requires
        from <= s@.len(),
    ensures
        r == find_from(s@, c, from as int),
{
    let n = s.unicode_len();
    let mut i = from;
    while i < n && s.get_char(i) != c
        invariant
            n == s@.len(),
            from <= i <= n,
            find_from(s@, c, from as int) == find_from(s@, c, i as int),
        decreases n - i,
    {
        i += 1;
    }
    i
}

pub open spec fn is_digit(c: char) -> bool {
    '0' <= c && c <= '9'
}

/// The number that a string of decimal digits spells.
pub open spec fn value_of(s: Seq<char>) -> nat
    decreases s.len(),
{
    if s.len() == 0 {
        0
    } else {
        value_of(s.subrange(0, s.len() - 1)) * 10 + (s[s.len() - 1] as nat - '0' as nat) as nat
    }
}

/// A number's text without its optional leading '+'.
pub open spec fn unsigned_body(s: Seq<char>) -> Seq<char> {
    if s.len() > 0 && s[0] == '+' {
        s.subrange(1, s.len() as int)
    } else {
        s
    }
}

pub open spec fn all_digits(s: Seq<char>) -> bool {
    forall|i: int| 0 <= i < s.len() ==> is_digit(#[trigger] s[i])
}

/// What `str::parse` gives for an unsigned integer, before the range
/// check: an optional '+' and then at least one decimal digit.
pub open spec fn unsigned_value(s: Seq<char>) -> Option<nat> {
    if unsigned_body(s).len() > 0 && all_digits(unsigned_body(s)) {
        Some(value_of(unsigned_body(s)))
    } else {
        None
    }
}

pub proof fn lemma_value_grows(s: Seq<char>, k: int)
    requires
        0 <= k <= s.len(),
    ensures
        value_of(s.subrange(0, k)) <= value_of(s),
    decreases s.len() - k,
{
    if k < s.len() {
        lemma_value_grows(s, k + 1);
        let t = s.subrange(0, k + 1);
        assert(t.subrange(0, k) =~= s.subrange(0, k));
    } else {
        assert(s.subrange(0, k) =~= s);
    }
}

/// Parses an unsigned decimal number of at most `u64::MAX`.
pub fn parse_u64(s: &str) -> (r: Option<u64>)
    ensures
        r == (match unsigned_value(s@) {
            Some(v) => if v <= u64::MAX {
                Some(v as u64)
            } else {
                None::<u64>
            },
            None => None::<u64>,
        }),
{
    let n = s.unicode_len();
    let start: usize = if n > 0 && s.get_char(0) == '+' { 1 } else { 0 };
    let ghost body = s@.subrange(start as int, n as int);
    proof {
        if start == 0 {
            assert(body =~= s@);
        }
        assert(body == unsigned_body(s@));
    }
    if start == n {
        return None;
    }
    let mut acc: u64 = 0;
    let mut i = start;
    while i < n
        invariant
            n == s@.len(),
            start < n,
            body == s@.subrange(start as int, n as int),
            body == unsigned_body(s@),
            start <= i <= n,
            acc as nat == value_of(body.subrange(0, i - start)),
            forall|j: int| 0 <= j < i - start ==> is_digit(#[trigger] body[j]),
        decreases n - i,
    {
        let c = s.get_char(i);
        if !('0' <= c && c <= '9') {
            assert(body[i - start] == c);
            assert(!is_digit(body[i - start]));
            assert(!all_digits(body));
            return None;
        }
        let d = (c as u32 - '0' as u32) as u64;
        let ghost t = body.subrange(0, i - start + 1);
        proof {
            assert(t.subrange(0, i - start) =~= body.subrange(0, i - start));
            assert(t[i - start] == c);
            assert(value_of(t) == acc * 10 + d);
        }
        if acc > (u64::MAX - d) / 10 {
            proof {
                assert(acc * 10 + d > u64::MAX) by (nonlinear_arith)
                    requires acc > (u64::MAX - d) / 10, d <= 9;
                lemma_value_grows(body, i - start + 1);
            }
            return None;
        }
        proof {
            assert(acc * 10 + d <= u64::MAX) by (nonlinear_arith)
                requires acc <= (u64::MAX - d) / 10, d <= 9;
        }
        acc = acc * 10 + d;
        i += 1;
    }
    assert(body.subrange(0, n - start) =~= body);
    Some(acc)
}

/// Reads "<host>:<port>" into its host and its port. The host is what
/// precedes the first ':' and must not be empty; the port is what follows
/// it, up to a second ':' if any, and must be a number from 1 to 65535; no
/// second ':' may occur. The checks come in that order.
pub fn parse_url(address: &str) -> (r: Result<(String, u16), Error>)
    ensures
        ({
            let s = address@;
            let k1 = find_from(s, ':', 0);
            let k2 = find_from(s, ':', k1 + 1);
            let port = unsigned_value(s.subrange(k1 + 1, k2));
            if k1 == 0 {
                r matches Err(Error::InvalidHost)
            } else if k1 == s.len() || port is None || port->0 > 65535 {
                r matches Err(Error::InvalidPort)
            } else if port->0 == 0 {
                r matches Err(Error::ZeroPort)
            } else if k2 < s.len() {
                r matches Err(Error::ExtraColon(a)) && a@ == s
            } else {
                r matches Ok((h, p)) && h@ == s.subrange(0, k1) && p == port->0
            }
        }),
{
    let n = address.unicode_len();
    let k1 = find_char(address, ':', 0);
    proof { lemma_find_from(address@, ':', 0); }
    if k1 == 0 {
        return Err(Error::InvalidHost);
    }
    if k1 == n {
        return Err(Error::InvalidPort);
    }
    let k2 = find_char(address, ':', k1 + 1);
    proof { lemma_find_from(address@, ':', k1 + 1); }
    let text = address.substring_char(k1 + 1, k2);
    let port = match parse_u64(text) {
        Some(v) => v,
        None => {
            return Err(Error::InvalidPort);
        },
    };
    if port > 65535 {
        return Err(Error::InvalidPort);
    }
    if port == 0 {
        return Err(Error::ZeroPort);
    }
    if k2 < n {
        return Err(Error::ExtraColon(address.to_owned()));
    }
    let host = address.substring_char(0, k1).to_owned();
    Ok((host, port as u16))
}

/// Checks an academic year "<start><split><end>": both halves must be
/// numbers, `start + 1` must not overflow, and `end` must be `start + 1`.
pub fn validate_academic_year(academic_year: &str, split: char) -> (r: Result<String, Error>)
    ensures
        ({
            let s = academic_year@;
            let k = find_from(s, split, 0);
            let a = if k < s.len() { unsigned_value(s.subrange(0, k)) } else { None };
            let b = if k < s.len() { unsigned_value(s.subrange(k + 1, s.len() as int)) } else { None };
            if a is None || a->0 > u64::MAX || b is None || b->0 > u64::MAX {
                r matches Err(Error::InvalidYear(t)) && t@ == s
            } else if a->0 == u64::MAX {
                r matches Err(Error::YearOverflow(y)) && y == a->0
            } else if a->0 + 1 != b->0 {
                r matches Err(Error::NonConsecutiveYears(t)) && t@ == s
            } else {
                r matches Ok(t) && t@ == s
            }
        }),
{
    let n = academic_year.unicode_len();
    let k = find_char(academic_year, split, 0);
    proof { lemma_find_from(academic_year@, split, 0); }
    if k == n {
        return Err(Error::InvalidYear(academic_year.to_owned()));
    }
    let start = match parse_u64(academic_year.substring_char(0, k)) {
        Some(v) => v,
        None => {
            return Err(Error::InvalidYear(academic_year.to_owned()));
        },
    };
    let end = match parse_u64(academic_year.substring_char(k + 1, n)) {
        Some(v) => v,
        None => {
            return Err(Error::InvalidYear(academic_year.to_owned()));
        },
    };
    if start == u64::MAX {
        return Err(Error::YearOverflow(start));
    }
    if start + 1 != end {
        return Err(Error::NonConsecutiveYears(academic_year.to_owned()));
    }
    Ok(academic_year.to_owned())
}

} // verus!
