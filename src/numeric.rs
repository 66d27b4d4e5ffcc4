//! Which texts read as decimal numbers, by the grammar of Rust's float literals in
//! text form: an optional sign, then `inf`, `infinity`, `nan` (in any letter case)
//! or digits with at most one decimal point and an optional exponent.
use vstd::prelude::*;

verus! {

pub open spec fn is_digit(c: char) -> bool {
    '0' <= c && c <= '9'
}

pub open spec fn is_sign(c: char) -> bool {
    c == '+' || c == '-'
}

pub open spec fn is_exp_mark(c: char) -> bool {
    c == 'e' || c == 'E'
}

/// How many decimal points `m` holds.
pub open spec fn dot_count(m: Seq<char>) -> nat
    decreases m.len(),
{
    if m.len() == 0 {
        0
    } else {
        dot_count(m.drop_last()) + if m.last() == '.' {
            1nat
        } else {
            0nat
        }
    }
}

/// Digits with at most one decimal point, and at least one digit.
pub open spec fn is_mantissa(m: Seq<char>) -> bool {
    &&& forall|i: int| 0 <= i < m.len() ==> is_digit(#[trigger] m[i]) || m[i] == '.'
    &&& dot_count(m) <= 1
    &&& dot_count(m) < m.len()
}

pub open spec fn all_digits(z: Seq<char>) -> bool {
    forall|i: int| 0 <= i < z.len() ==> is_digit(#[trigger] z[i])
}

/// An optional sign followed by one digit or more.
pub open spec fn is_exponent_digits(y: Seq<char>) -> bool {
    let z = if y.len() > 0 && is_sign(y[0]) {
        y.drop_first()
    } else {
        y
    };
    z.len() > 0 && all_digits(z)
}

/// A mantissa, optionally followed by `e` or `E` and an exponent.
pub open spec fn is_unsigned_decimal(b: Seq<char>) -> bool {
    is_mantissa(b) || exists|p: int|
        0 <= p < b.len() && is_exp_mark(#[trigger] b[p]) && is_mantissa(b.take(p))
            && is_exponent_digits(b.skip(p + 1))
}

/// `b` spells a word whose letters are given in lower case in `lower` and in upper
/// case in `upper`, each letter in either case.
pub open spec fn is_word_ci(b: Seq<char>, lower: Seq<char>, upper: Seq<char>) -> bool {
    b.len() == lower.len() && forall|i: int|
        0 <= i < b.len() ==> #[trigger] b[i] == lower[i] || b[i] == upper[i]
}

/// `b` spells `inf` in any letter case.
pub open spec fn is_inf(b: Seq<char>) -> bool {
    is_word_ci(b, seq!['i', 'n', 'f'], seq!['I', 'N', 'F'])
}

/// `b` spells `infinity` in any letter case.
pub open spec fn is_infinity(b: Seq<char>) -> bool {
    is_word_ci(
        b,
        seq!['i', 'n', 'f', 'i', 'n', 'i', 't', 'y'],
        seq!['I', 'N', 'F', 'I', 'N', 'I', 'T', 'Y'],
    )
}

/// `b` spells `nan` in any letter case.
pub open spec fn is_nan(b: Seq<char>) -> bool {
    is_word_ci(b, seq!['n', 'a', 'n'], seq!['N', 'A', 'N'])
}

/// Whether `s` reads as a number.
pub open spec fn is_number_text(s: Seq<char>) -> bool {
    let b = if s.len() > 0 && is_sign(s[0]) {
        s.drop_first()
    } else {
        s
    };
    is_unsigned_decimal(b) || is_inf(b) || is_infinity(b) || is_nan(b)
}

fn chars_of(t: &str) -> (r: Vec<char>)
    ensures
        r@ == t@,
{
    let n = t.unicode_len();
    let mut r: Vec<char> = Vec::new();
    let mut i: usize = 0;
    while i < n
        invariant
            n == t@.len(),
            i <= n,
            r@ == t@.take(i as int),
        decreases n - i,
    {
        r.push(t.get_char(i));
        assert(r@ =~= t@.take(i + 1));
        i = i + 1;
    }
    assert(t@.take(n as int) =~= t@);
    r
}

fn mantissa_at(cs: &Vec<char>, lo: usize, hi: usize) -> (r: bool)
    requires
        lo <= hi <= cs@.len(),
    ensures
        r == is_mantissa(cs@.subrange(lo as int, hi as int)),
{
    let ghost m = cs@.subrange(lo as int, hi as int);
    let mut dots: usize = 0;
    let mut k: usize = lo;
    while k < hi
        invariant
            lo <= k <= hi <= cs@.len(),
            m == cs@.subrange(lo as int, hi as int),
            dots == dot_count(cs@.subrange(lo as int, k as int)),
            dots <= k - lo,
            forall|i: int| lo <= i < k ==> is_digit(#[trigger] cs@[i]) || cs@[i] == '.',
        decreases hi - k,
    {
        assert(cs@.subrange(lo as int, k + 1).drop_last() =~= cs@.subrange(lo as int, k as int));
        let c = cs[k];
        if c == '.' {
            dots = dots + 1;
        } else if !('0' <= c && c <= '9') {
            assert(m[k - lo] == c);
            return false;
        }
        k = k + 1;
    }
    assert(cs@.subrange(lo as int, hi as int) =~= m);
    assert forall|i: int| 0 <= i < m.len() implies is_digit(#[trigger] m[i]) || m[i] == '.' by {
        assert(m[i] == cs@[lo + i]);
    }
    dots <= 1 && dots < hi - lo
}

fn exponent_at(cs: &Vec<char>, lo: usize, hi: usize) -> (r: bool)
    requires
        lo <= hi <= cs@.len(),
    ensures
        r == is_exponent_digits(cs@.subrange(lo as int, hi as int)),
{
    let ghost y = cs@.subrange(lo as int, hi as int);
    let start = if lo < hi && (cs[lo] == '+' || cs[lo] == '-') {
        lo + 1
    } else {
        lo
    };
    let ghost z = cs@.subrange(start as int, hi as int);
    assert(z =~= if y.len() > 0 && is_sign(y[0]) {
        y.drop_first()
    } else {
        y
    });
    assert(is_exponent_digits(y) == (z.len() > 0 && all_digits(z)));
    if start >= hi {
        return false;
    }
    let mut k: usize = start;
    while k < hi
        invariant
            start <= k <= hi <= cs@.len(),
            y == cs@.subrange(lo as int, hi as int),
            is_exponent_digits(y) == (z.len() > 0 && all_digits(z)),
            z == cs@.subrange(start as int, hi as int),
            forall|i: int| start <= i < k ==> is_digit(#[trigger] cs@[i]),
        decreases hi - k,
    {
        let c = cs[k];
        if !('0' <= c && c <= '9') {
            assert(z[k - start] == c);
            assert(!is_digit(z[k - start]));
            return false;
        }
        k = k + 1;
    }
    assert forall|i: int| 0 <= i < z.len() implies is_digit(#[trigger] z[i]) by {
        assert(z[i] == cs@[start + i]);
    }
    true
}

fn word_at(cs: &Vec<char>, lo: usize, lower: &Vec<char>, upper: &Vec<char>) -> (r: bool)
    requires
        lo <= cs@.len(),
        lower@.len() == upper@.len(),
    ensures
        r == is_word_ci(cs@.subrange(lo as int, cs@.len() as int), lower@, upper@),
{
    let ghost b = cs@.subrange(lo as int, cs@.len() as int);
    let n = cs.len();
    if n - lo != lower.len() {
        return false;
    }
    let mut k: usize = 0;
    while k < lower.len()
        invariant
            n == cs@.len(),
            lo + lower@.len() == cs@.len(),
            lower@.len() == upper@.len(),
            b == cs@.subrange(lo as int, cs@.len() as int),
            k <= lower@.len(),
            forall|i: int| 0 <= i < k ==> #[trigger] b[i] == lower@[i] || b[i] == upper@[i],
        decreases lower@.len() - k,
    {
        let c = cs[lo + k];
        assert(b[k as int] == c);
        if !(c == lower[k] || c == upper[k]) {
            return false;
        }
        k = k + 1;
    }
    true
}

proof fn lemma_mantissa_has_no_mark(m: Seq<char>, i: int)
    requires
        is_mantissa(m),
        0 <= i < m.len(),
    ensures
        !is_exp_mark(m[i]),
{
    assert(is_digit(m[i]) || m[i] == '.');
}

fn unsigned_decimal_at(cs: &Vec<char>, lo: usize) -> (r: bool)
    requires
        lo <= cs@.len(),
    ensures
        r == is_unsigned_decimal(cs@.subrange(lo as int, cs@.len() as int)),
{
    let n = cs.len();
    let ghost b = cs@.subrange(lo as int, n as int);
    let mut e: usize = lo;
    while e < n && !(cs[e] == 'e' || cs[e] == 'E')
        invariant
            lo <= e <= n == cs@.len(),
            forall|i: int| lo <= i < e ==> !is_exp_mark(#[trigger] cs@[i]),
        decreases n - e,
    {
        e = e + 1;
    }
    if e == n {
        let r = mantissa_at(cs, lo, n);
        proof {
            if !r && is_unsigned_decimal(b) {
                let p = choose|p: int|
                    0 <= p < b.len() && is_exp_mark(#[trigger] b[p]) && is_mantissa(b.take(p))
                        && is_exponent_digits(b.skip(p + 1));
                assert(b[p] == cs@[lo + p]);
            }
        }
        r
    } else {
        let rm = mantissa_at(cs, lo, e);
        let rx = exponent_at(cs, e + 1, n);
        let ghost pe = e - lo;
        assert(b.take(pe) =~= cs@.subrange(lo as int, e as int));
        assert(b.skip(pe + 1) =~= cs@.subrange(e + 1, n as int));
        assert(b[pe] == cs@[e as int]);
        proof {
            if is_mantissa(b) {
                lemma_mantissa_has_no_mark(b, pe);
            }
            if !(rm && rx) && is_unsigned_decimal(b) {
                let p = choose|p: int|
                    0 <= p < b.len() && is_exp_mark(#[trigger] b[p]) && is_mantissa(b.take(p))
                        && is_exponent_digits(b.skip(p + 1));
                if p < pe {
                    assert(b[p] == cs@[lo + p]);
                } else if p > pe {
                    assert(b.take(p)[pe] == b[pe]);
                    lemma_mantissa_has_no_mark(b.take(p), pe);
                }
            }
        }
        rm && rx
    }
}

/// Whether `t` reads as a number: an optional sign, then `inf`, `infinity` or
/// `nan` in any letter case, or digits with at most one decimal point and an
/// optional exponent (`e` or `E`, an optional sign, digits).
pub fn is_number(t: &str) -> (r: bool)
    ensures
        r == is_number_text(t@),
{
    let cs = chars_of(t);
    let n = cs.len();
    let lo: usize = if n > 0 && (cs[0] == '+' || cs[0] == '-') {
        1
    } else {
        0
    };
    let ghost b = cs@.subrange(lo as int, n as int);
    assert(b =~= if t@.len() > 0 && is_sign(t@[0]) {
        t@.drop_first()
    } else {
        t@
    });
    let unsigned = unsigned_decimal_at(&cs, lo);
    let lower_inf = vec!['i', 'n', 'f'];
    let upper_inf = vec!['I', 'N', 'F'];
    let lower_infinity = vec!['i', 'n', 'f', 'i', 'n', 'i', 't', 'y'];
    let upper_infinity = vec!['I', 'N', 'F', 'I', 'N', 'I', 'T', 'Y'];
    let lower_nan = vec!['n', 'a', 'n'];
    let upper_nan = vec!['N', 'A', 'N'];
    assert(lower_inf@ =~= seq!['i', 'n', 'f']);
    assert(upper_inf@ =~= seq!['I', 'N', 'F']);
    assert(lower_infinity@ =~= seq!['i', 'n', 'f', 'i', 'n', 'i', 't', 'y']);
    assert(upper_infinity@ =~= seq!['I', 'N', 'F', 'I', 'N', 'I', 'T', 'Y']);
    assert(lower_nan@ =~= seq!['n', 'a', 'n']);
    assert(upper_nan@ =~= seq!['N', 'A', 'N']);
    unsigned || word_at(&cs, lo, &lower_inf, &upper_inf) || word_at(
        &cs,
        lo,
        &lower_infinity,
        &upper_infinity,
    ) || word_at(&cs, lo, &lower_nan, &upper_nan)
}

} // verus!
