//! The textual encoding of bases, components and multivectors.
//!
//! A basis is written `P(7)`, `Z(7)` or `N(7)` with a canonical decimal id.
//! A component is an optional sign, an optional decimal coefficient and a
//! run of basis tokens; a multivector joins component texts with `+` or `-`
//! according to the sign of each term.

use vstd::prelude::*;
use vstd::string::*;

use crate::basis::ONBasis;
use crate::canon::{canon_bases, canon_factor};
use crate::component::{CompView, Component};
use crate::multivector::{comp_add_fits, comp_add_spec, Multivector};
use crate::rational::Rational;

verus! {

/// A parse failure, naming the offending text.
#[derive(Debug, Clone, PartialEq, Eq)]
pub enum FormatError {
    /// A basis token does not match `P(id)`, `Z(id)` or `N(id)`.
    BadBasis { token: String },
    /// The numeric coefficient is malformed.
    BadNumber { text: String },
    /// A number in the text does not fit the machine representation.
    NumberTooLarge { text: String },
}

/// An ascii decimal digit.
pub open spec fn is_digit(c: char) -> bool {
    48 <= c as int <= 57
}

/// The value of one decimal digit.
pub open spec fn digit_val(c: char) -> int {
    c as int - 48
}

/// The digit character for a value below ten.
pub open spec fn digit_char(d: int) -> char {
    if d == 0 {
        '0'
    } else if d == 1 {
        '1'
    } else if d == 2 {
        '2'
    } else if d == 3 {
        '3'
    } else if d == 4 {
        '4'
    } else if d == 5 {
        '5'
    } else if d == 6 {
        '6'
    } else if d == 7 {
        '7'
    } else if d == 8 {
        '8'
    } else {
        '9'
    }
}

/// The canonical decimal digits of a number, most significant first.
pub open spec fn dec_digits(n: nat) -> Seq<char>
    decreases n,
{
    if n < 10 {
        seq![digit_char(n as int)]
    } else {
        dec_digits(n / 10) + seq![digit_char((n % 10) as int)]
    }
}

/// Every character is a decimal digit.
pub open spec fn all_digits(s: Seq<char>) -> bool {
    forall|i: int| 0 <= i < s.len() ==> is_digit(#[trigger] s[i])
}

/// The number denoted by a digit string, most significant first.
pub open spec fn dec_val(s: Seq<char>) -> int
    decreases s.len(),
{
    if s.len() == 0 {
        0
    } else {
        dec_val(s.take(s.len() - 1)) * 10 + digit_val(s.last())
    }
}

/// A canonical decimal integer: nonempty, digits only, no leading zero.
pub open spec fn canonical_digits(s: Seq<char>) -> bool {
    &&& s.len() > 0
    &&& all_digits(s)
    &&& (s[0] == '0' ==> s.len() == 1)
}

/// The signature letter of a basis.
pub open spec fn basis_char(b: ONBasis) -> char {
    match b {
        ONBasis::P(_) => 'P',
        ONBasis::Z(_) => 'Z',
        ONBasis::N(_) => 'N',
    }
}

/// The text of one basis: its letter, then its id in parentheses.
pub open spec fn basis_text(b: ONBasis) -> Seq<char> {
    seq![basis_char(b), '('] + dec_digits(b.id()) + seq![')']
}

/// The basis a text denotes, when it has exactly the shape
/// `[PZN] ( digits )` with a canonical id that fits the machine.
pub open spec fn basis_of_text(s: Seq<char>) -> Option<ONBasis> {
    if s.len() >= 4 && (s[0] == 'P' || s[0] == 'Z' || s[0] == 'N') && s[1] == '(' && s[s.len() - 1]
        == ')' && canonical_digits(s.subrange(2, s.len() - 1)) && dec_val(
        s.subrange(2, s.len() - 1),
    ) <= usize::MAX as int {
        let id = dec_val(s.subrange(2, s.len() - 1)) as usize;
        if s[0] == 'P' {
            Some(ONBasis::P(id))
        } else if s[0] == 'Z' {
            Some(ONBasis::Z(id))
        } else {
            Some(ONBasis::N(id))
        }
    } else {
        None
    }
}

/// The digit string of a number is never empty and is canonical.
pub proof fn lemma_dec_digits_canonical(n: nat)
    ensures
        canonical_digits(dec_digits(n)),
        dec_digits(n).len() >= 1,
    decreases n,
{
    if n < 10 {
    } else {
        lemma_dec_digits_canonical(n / 10);
        let d = dec_digits(n / 10);
        assert(dec_digits(n) == d + seq![digit_char((n % 10) as int)]);
        assert(d[0] != '0') by {
            if d[0] == '0' {
                assert(d.len() == 1);
                assert(d =~= seq!['0']);
                lemma_dec_val_of_digits(n / 10);
                assert(seq!['0'].take(0) =~= Seq::<char>::empty());
                assert(dec_val(seq!['0'].take(0)) == 0);
                assert(seq!['0'].last() == '0');
                assert(dec_val(seq!['0']) == 0);
                assert(n / 10 >= 1);
            }
        }
        assert forall|i: int| 0 <= i < dec_digits(n).len() implies is_digit(
            #[trigger] dec_digits(n)[i],
        ) by {
            if i < d.len() {
                assert(dec_digits(n)[i] == d[i]);
            }
        }
    }
}

/// Printing then reading a number gives the number back.
pub proof fn lemma_dec_val_of_digits(n: nat)
    ensures
        dec_val(dec_digits(n)) == n,
    decreases n,
{
    if n < 10 {
        let s = dec_digits(n);
        assert(s == seq![digit_char(n as int)]);
        assert(s.len() == 1);
        assert(s.take(0) =~= Seq::<char>::empty());
        assert(dec_val(s.take(0)) == 0);
        assert(s.last() == digit_char(n as int));
        assert(digit_val(digit_char(n as int)) == n);
        assert(dec_val(s) == dec_val(s.take(0)) * 10 + digit_val(s.last()));
    } else {
        lemma_dec_val_of_digits(n / 10);
        let d = dec_digits(n / 10);
        let s = dec_digits(n);
        assert(s == d + seq![digit_char((n % 10) as int)]);
        assert(s.take(s.len() - 1) =~= d);
        assert(s.last() == digit_char((n % 10) as int));
        assert(digit_val(digit_char((n % 10) as int)) == n % 10);
        assert(dec_val(s) == (n / 10) * 10 + n % 10);
        assert((n / 10) * 10 + n % 10 == n) by (nonlinear_arith);
    }
}

/// A digit string denotes a value at least zero, and a prefix never
/// denotes more than the whole.
pub proof fn lemma_dec_val_prefix(s: Seq<char>, k: int)
    requires
        all_digits(s),
        0 <= k <= s.len(),
    ensures
        0 <= dec_val(s.take(k)),
        dec_val(s.take(k)) <= dec_val(s),
    decreases s.len() - k,
{
    if k == s.len() {
        assert(s.take(k) =~= s);
        lemma_dec_val_nonneg(s);
    } else {
        lemma_dec_val_prefix(s, k + 1);
        let t = s.take(k + 1);
        assert(t.take(k) =~= s.take(k));
        assert(all_digits(s.take(k))) by {
            assert(forall|i: int| 0 <= i < k ==> s.take(k)[i] == s[i]);
        }
        lemma_dec_val_nonneg(s.take(k));
        assert(dec_val(t) == dec_val(s.take(k)) * 10 + digit_val(t.last()));
        assert(is_digit(t.last())) by {
            assert(t.last() == s[k]);
        }
    }
}

/// A digit string denotes a value at least zero.
pub proof fn lemma_dec_val_nonneg(s: Seq<char>)
    requires
        all_digits(s),
    ensures
        dec_val(s) >= 0,
    decreases s.len(),
{
    if s.len() > 0 {
        assert(all_digits(s.take(s.len() - 1))) by {
            assert(forall|i: int| 0 <= i < s.len() - 1 ==> s.take(s.len() - 1)[i] == s[i]);
        }
        lemma_dec_val_nonneg(s.take(s.len() - 1));
        assert(is_digit(s.last()));
    }
}

/// Printing a basis and reading the text back gives the basis.
pub proof fn lemma_basis_text_round_trip(b: ONBasis)
    ensures
        basis_of_text(basis_text(b)) == Some(b),
{
    let s = basis_text(b);
    lemma_dec_digits_canonical(b.id());
    lemma_dec_val_of_digits(b.id());
    assert(s.subrange(2, s.len() - 1) =~= dec_digits(b.id()));
    assert(s[0] == basis_char(b));
    assert(s[1] == '(');
    assert(s[s.len() - 1] == ')');
}

/// Appends the canonical decimal digits of `n`.
fn push_dec(s: &mut String, n: u64)
    ensures
        final(s)@ == old(s)@ + dec_digits(n as nat),
    decreases n,
{
    if n >= 10 {
        push_dec(s, n / 10);
    }
    let d = n % 10;
    match d {
        0 => s.append("0"),
        1 => s.append("1"),
        2 => s.append("2"),
        3 => s.append("3"),
        4 => s.append("4"),
        5 => s.append("5"),
        6 => s.append("6"),
        7 => s.append("7"),
        8 => s.append("8"),
        _ => s.append("9"),
    }
    proof {
        reveal_strlit("0");
        reveal_strlit("1");
        reveal_strlit("2");
        reveal_strlit("3");
        reveal_strlit("4");
        reveal_strlit("5");
        reveal_strlit("6");
        reveal_strlit("7");
        reveal_strlit("8");
        reveal_strlit("9");
        assert(old(s)@ + dec_digits(n as nat) =~= final(s)@);
    }
}

impl ONBasis {
    /// The text of the basis: `P(id)`, `Z(id)` or `N(id)`.
    pub fn to_string(&self) -> (s: String)
        ensures
            s@ == basis_text(*self),
    {
        let mut s = String::new();
        match self {
            ONBasis::P(_) => s.append("P("),
            ONBasis::Z(_) => s.append("Z("),
            ONBasis::N(_) => s.append("N("),
        }
        proof {
            reveal_strlit("P(");
            reveal_strlit("Z(");
            reveal_strlit("N(");
        }
        let id = self.unwrap();
        push_dec(&mut s, id as u64);
        s.append(")");
        proof {
            reveal_strlit(")");
            assert(s@ =~= basis_text(*self));
        }
        s
    }

    /// Reads a basis from text of the shape `P(id)`, `Z(id)` or `N(id)`.
    pub fn from_string(val: &String) -> (r: Result<ONBasis, FormatError>)
        ensures
            r is Ok <==> basis_of_text(val@) is Some,
            r matches Ok(b) ==> basis_of_text(val@) == Some(b),
    {
        let s = val.as_str();
        let n = s.unicode_len();
        if n < 4 {
            return Err(FormatError::BadBasis { token: val.clone() });
        }
        let c0 = s.get_char(0);
        if !(c0 == 'P' || c0 == 'Z' || c0 == 'N') {
            return Err(FormatError::BadBasis { token: val.clone() });
        }
        if s.get_char(1) != '(' {
            return Err(FormatError::BadBasis { token: val.clone() });
        }
        if s.get_char(n - 1) != ')' {
            return Err(FormatError::BadBasis { token: val.clone() });
        }
        let ghost digs = val@.subrange(2, n as int - 1);
        let mut v: usize = 0;
        let mut i: usize = 2;
        while i < n - 1
            invariant
                2 <= i <= n - 1,
                4 <= n == val@.len(),
                s@ == val@,
                digs == val@.subrange(2, n as int - 1),
                all_digits(val@.subrange(2, i as int)),
                v == dec_val(val@.subrange(2, i as int)),
            decreases n - 1 - i,
        {
            let c = s.get_char(i);
            let u = c as u32;
            if u < 48 || u > 57 {
                proof {
                    assert(digs[i as int - 2] == c);
                    assert(!is_digit(c));
                }
                return Err(FormatError::BadBasis { token: val.clone() });
            }
            let d = (u - 48) as usize;
            let ghost pre = val@.subrange(2, i as int);
            proof {
                assert(val@.subrange(2, i as int + 1).take(i as int - 2) =~= pre);
                assert(val@.subrange(2, i as int + 1).last() == c);
                assert(all_digits(val@.subrange(2, i as int + 1))) by {
                    assert(forall|k: int|
                        0 <= k < i - 1 ==> #[trigger] val@.subrange(2, i as int + 1)[k] == val@[k
                            + 2]);
                }
            }
            if v > (usize::MAX - d) / 10 {
                proof {
                    assert(v * 10 + d > usize::MAX as int);
                    assert(digs.take(i as int - 1) =~= val@.subrange(2, i as int + 1));
                    if all_digits(digs) {
                        lemma_dec_val_prefix(digs, i as int - 1);
                        assert(dec_val(digs) > usize::MAX as int);
                    }
                }
                return Err(FormatError::NumberTooLarge { text: val.clone() });
            }
            v = v * 10 + d;
            i = i + 1;
        }
        proof {
            assert(val@.subrange(2, i as int) == digs);
        }
        if s.get_char(2) == '0' && n > 4 {
            proof {
                assert(digs[0] == '0' && digs.len() > 1);
            }
            return Err(FormatError::BadBasis { token: val.clone() });
        }
        let b = if c0 == 'P' {
            ONBasis::P(v)
        } else if c0 == 'Z' {
            ONBasis::Z(v)
        } else {
            ONBasis::N(v)
        };
        proof {
            assert(canonical_digits(digs));
            assert(basis_of_text(val@) == Some(b));
        }
        Ok(b)
    }
}

/// Ten to the `k`-th power.
pub open spec fn pow10(k: nat) -> int
    decreases k,
{
    if k == 0 {
        1
    } else {
        10 * pow10((k - 1) as nat)
    }
}

/// The first index at or after `i` holding a non-digit, or the length.
pub open spec fn digits_end(s: Seq<char>, i: int) -> int
    decreases s.len() - i,
{
    if i < 0 || i >= s.len() {
        i
    } else if is_digit(s[i]) {
        digits_end(s, i + 1)
    } else {
        i
    }
}

pub proof fn lemma_digits_end_bounds(s: Seq<char>, i: int)
    requires
        0 <= i <= s.len(),
    ensures
        i <= digits_end(s, i) <= s.len(),
        forall|k: int| i <= k < digits_end(s, i) ==> is_digit(#[trigger] s[k]),
        digits_end(s, i) < s.len() ==> !is_digit(s[digits_end(s, i)]),
    decreases s.len() - i,
{
    if i < s.len() && is_digit(s[i]) {
        lemma_digits_end_bounds(s, i + 1);
    }
}

pub proof fn lemma_digits_end_char(s: Seq<char>, i: int, j: int)
    requires
        0 <= i <= j <= s.len(),
        forall|k: int| i <= k < j ==> is_digit(#[trigger] s[k]),
        j < s.len() ==> !is_digit(s[j]),
    ensures
        digits_end(s, i) == j,
    decreases s.len() - i,
{
    if i < s.len() && is_digit(s[i]) {
        lemma_digits_end_char(s, i + 1, j);
    }
}

/// The first index at or after `i` holding a closing parenthesis, or the
/// length.
pub open spec fn paren_end(s: Seq<char>, i: int) -> int
    decreases s.len() - i,
{
    if i < 0 || i >= s.len() {
        s.len() as int
    } else if s[i] == ')' {
        i
    } else {
        paren_end(s, i + 1)
    }
}

pub proof fn lemma_paren_end_bounds(s: Seq<char>, i: int)
    requires
        0 <= i <= s.len(),
    ensures
        i <= paren_end(s, i) <= s.len(),
        forall|k: int| i <= k < paren_end(s, i) ==> #[trigger] s[k] != ')',
        paren_end(s, i) < s.len() ==> s[paren_end(s, i)] == ')',
    decreases s.len() - i,
{
    if i < s.len() && s[i] != ')' {
        lemma_paren_end_bounds(s, i + 1);
    }
}

pub proof fn lemma_paren_end_char(s: Seq<char>, i: int, j: int)
    requires
        0 <= i <= j <= s.len(),
        forall|k: int| i <= k < j ==> #[trigger] s[k] != ')',
        j < s.len() ==> s[j] == ')',
    ensures
        paren_end(s, i) == j,
    decreases s.len() - i,
{
    if i < s.len() && s[i] != ')' {
        lemma_paren_end_char(s, i + 1, j);
    }
}

/// The run of basis tokens starting at `i`: each token reaches to the next
/// closing parenthesis and must denote a basis.
pub open spec fn parse_bases(s: Seq<char>, i: int) -> Option<Seq<ONBasis>>
    decreases s.len() - i,
{
    if i >= s.len() {
        Some(Seq::empty())
    } else {
        let p0 = paren_end(s, i);
        let p: int = if p0 >= i {
            p0
        } else {
            i
        };
        if p >= s.len() {
            None
        } else {
            match basis_of_text(s.subrange(i, p + 1)) {
                Some(b) => match parse_bases(s, p + 1) {
                    Some(rest) => Some(seq![b] + rest),
                    None => None,
                },
                None => None,
            }
        }
    }
}

/// What a component text denotes, before canonicalization: a sign, an
/// optional decimal coefficient and a run of basis tokens. A bare sign with
/// at least one basis token means coefficient one; the empty text means
/// zero.
pub open spec fn parse_component(s: Seq<char>) -> Option<(int, int, Seq<ONBasis>)> {
    if s.len() == 0 {
        Some((0, 1, Seq::empty()))
    } else {
        let sgn: int = if s[0] == '-' {
            -1
        } else {
            1
        };
        let i1: int = if s[0] == '+' || s[0] == '-' {
            1
        } else {
            0
        };
        let i2 = digits_end(s, i1);
        let has_dot = i2 < s.len() && s[i2] == '.';
        let i3: int = if has_dot {
            digits_end(s, i2 + 1)
        } else {
            i2
        };
        if has_dot && i2 == i1 && i3 == i2 + 1 {
            None
        } else {
            match parse_bases(s, i3) {
                None => None,
                Some(bs) => {
                    let ip = dec_val(s.subrange(i1, i2));
                    let fnum: int = if has_dot {
                        dec_val(s.subrange(i2 + 1, i3))
                    } else {
                        0
                    };
                    let fden: int = if has_dot {
                        pow10((i3 - i2 - 1) as nat)
                    } else {
                        1
                    };
                    if i3 == i1 {
                        if bs.len() > 0 {
                            Some((sgn, 1, bs))
                        } else {
                            Some((0, 1, bs))
                        }
                    } else {
                        Some((sgn * (ip * fden + fnum), fden, bs))
                    }
                },
            }
        }
    }
}

/// The parsed coefficient fits the machine representation: a limit of the
/// representation, not of the grammar.
pub open spec fn parse_fits(t: (int, int, Seq<ONBasis>)) -> bool {
    &&& -(i64::MAX as int) <= t.0 <= i64::MAX as int
    &&& 0 < t.1 <= i64::MAX as int
}

/// Scans a digit run from `from`, returning its value and its end. The
/// value is `None` when it exceeds the machine representation.
fn scan_dec(s: &str, from: usize) -> (res: (Option<i64>, usize))
    requires
        from <= s@.len(),
        s@.len() <= usize::MAX,
    ensures
        res.1 == digits_end(s@, from as int),
        from <= res.1 <= s@.len(),
        res.0 matches Some(v) ==> 0 <= v && v == dec_val(s@.subrange(from as int, res.1 as int)),
        res.0 is None ==> dec_val(s@.subrange(from as int, res.1 as int)) > i64::MAX as int,
{
    let n = s.unicode_len();
    proof {
        lemma_digits_end_bounds(s@, from as int);
    }
    let mut i = from;
    let mut v: i64 = 0;
    let mut over = false;
    while i < n && '0' <= s.get_char(i) && s.get_char(i) <= '9'
        invariant
            from <= i <= n,
            n == s@.len(),
            forall|k: int| from <= k < i ==> is_digit(#[trigger] s@[k]),
            !over ==> 0 <= v && v == dec_val(s@.subrange(from as int, i as int)),
            over ==> dec_val(s@.subrange(from as int, i as int)) > i64::MAX as int,
        decreases n - i,
    {
        let c = s.get_char(i);
        let d = (c as u32 - 48) as i64;
        let ghost pre = s@.subrange(from as int, i as int);
        proof {
            assert(s@.subrange(from as int, i as int + 1).take(i as int - from) =~= pre);
            assert(s@.subrange(from as int, i as int + 1).last() == c);
            assert(all_digits(s@.subrange(from as int, i as int + 1))) by {
                assert(forall|k: int|
                    0 <= k < i + 1 - from ==> #[trigger] s@.subrange(from as int, i as int + 1)[k]
                        == s@[k + from]);
            }
        }
        if !over {
            if v > (i64::MAX - d) / 10 {
                proof {
                    assert(v * 10 + d > i64::MAX as int);
                    let whole = s@.subrange(from as int, i as int + 1);
                    lemma_dec_val_prefix(whole, i as int + 1 - from);
                    assert(whole.take(i as int + 1 - from) =~= whole);
                }
                over = true;
            } else {
                v = v * 10 + d;
            }
        } else {
            proof {
                let whole = s@.subrange(from as int, i as int + 1);
                lemma_dec_val_prefix(whole, i as int - from);
                assert(whole.take(i as int - from) =~= pre);
                assert(is_digit(whole.last()));
                assert(dec_val(whole) == dec_val(pre) * 10 + digit_val(whole.last()));
                assert(dec_val(whole) > i64::MAX as int) by (nonlinear_arith)
                    requires
                        dec_val(pre) > i64::MAX as int,
                        dec_val(whole) == dec_val(pre) * 10 + digit_val(whole.last()),
                        digit_val(whole.last()) >= 0,
                ;
            }
        }
        i = i + 1;
    }
    proof {
        if i < n {
            assert(!is_digit(s@[i as int]));
        }
        lemma_digits_end_char(s@, from as int, i as int);
    }
    if over {
        (None, i)
    } else {
        (Some(v), i)
    }
}

/// Reads the run of basis tokens that starts at `from`.
fn parse_bases_exec(s: &str, from: usize) -> (r: Result<Vec<ONBasis>, FormatError>)
    requires
        from <= s@.len(),
        s@.len() <= usize::MAX,
    ensures
        r is Ok <==> parse_bases(s@, from as int) is Some,
        r matches Ok(v) ==> parse_bases(s@, from as int) == Some(v@),
{
    let n = s.unicode_len();
    let mut out: Vec<ONBasis> = Vec::new();
    let mut i = from;
    proof {
        assert(out@ =~= Seq::<ONBasis>::empty());
    }
    while i < n
        invariant
            from <= i <= n,
            n == s@.len() <= usize::MAX,
            parse_bases(s@, from as int) == (match parse_bases(s@, i as int) {
                Some(rest) => Some(out@ + rest),
                None => None::<Seq<ONBasis>>,
            }),
        decreases n - i,
    {
        let mut j = i;
        while j < n && s.get_char(j) != ')'
            invariant
                i <= j <= n,
                n == s@.len(),
                forall|k: int| i <= k < j ==> #[trigger] s@[k] != ')',
            decreases n - j,
        {
            j = j + 1;
        }
        proof {
            lemma_paren_end_char(s@, i as int, j as int);
        }
        if j >= n {
            return Err(
                FormatError::BadBasis { token: String::from_str(s.substring_char(i, n)) },
            );
        }
        let tok = String::from_str(s.substring_char(i, j + 1));
        let b = match ONBasis::from_string(&tok) {
            Ok(b) => b,
            Err(e) => {
                return Err(e);
            },
        };
        let ghost preout = out@;
        out.push(b);
        proof {
            assert(tok@ == s@.subrange(i as int, j as int + 1));
            assert(basis_of_text(s@.subrange(i as int, j as int + 1)) == Some(b));
            assert(forall|rest: Seq<ONBasis>| preout + (seq![b] + rest) =~= (preout.push(b))
                + rest);
        }
        i = j + 1;
    }
    proof {
        assert(parse_bases(s@, i as int) == Some(Seq::<ONBasis>::empty()));
        assert(out@ + Seq::<ONBasis>::empty() =~= out@);
    }
    Ok(out)
}

impl crate::component::Component {
    /// Reads a component from text: an optional sign, an optional decimal
    /// coefficient and a run of basis tokens, then canonicalizes. The empty
    /// text denotes the zero component.
    pub fn from_string(val: &String) -> (r: Result<crate::component::Component, FormatError>)
        ensures
            r is Ok <==> (parse_component(val@) matches Some(t) && parse_fits(t)),
            r matches Ok(c) ==> (parse_component(val@) matches Some(t) && c.is_canon_of(
                t.0,
                t.1,
                t.2,
            ) && c.wf()),
    {
        let s = val.as_str();
        let n = s.unicode_len();
        if n == 0 {
            proof {
                crate::canon::lemma_canon_of_sorted(Seq::<ONBasis>::empty());
            }
            return Ok(crate::component::Component::zero());
        }
        let c0 = s.get_char(0);
        let sgn: i64 = if c0 == '-' {
            -1
        } else {
            1
        };
        let i1: usize = if c0 == '+' || c0 == '-' {
            1
        } else {
            0
        };
        let (ip_opt, i2) = scan_dec(s, i1);
        let has_dot = i2 < n && s.get_char(i2) == '.';
        let ghost sgn_sp: int = if val@[0] == '-' {
            -1int
        } else {
            1int
        };
        let ghost ip_sp = dec_val(val@.subrange(i1 as int, i2 as int));
        proof {
            assert(sgn_sp == sgn as int);
            lemma_digits_end_bounds(val@, i1 as int);
            assert(all_digits(val@.subrange(i1 as int, i2 as int))) by {
                assert(forall|k: int|
                    0 <= k < i2 - i1 ==> #[trigger] val@.subrange(i1 as int, i2 as int)[k]
                        == val@[k + i1]);
            }
            lemma_dec_val_nonneg(val@.subrange(i1 as int, i2 as int));
        }
        let mut num: i64 = 0;
        let mut den: i64 = 1;
        let i3: usize;
        if has_dot {
            let (fv_opt, fe) = scan_dec(s, i2 + 1);
            i3 = fe;
            let ghost fnum_sp = dec_val(val@.subrange(i2 as int + 1, i3 as int));
            let ghost fden_sp = pow10((i3 - i2 - 1) as nat);
            proof {
                lemma_digits_end_bounds(val@, i2 as int + 1);
                assert(all_digits(val@.subrange(i2 as int + 1, i3 as int))) by {
                    assert(forall|k: int|
                        0 <= k < i3 - i2 - 1 ==> #[trigger] val@.subrange(
                            i2 as int + 1,
                            i3 as int,
                        )[k] == val@[k + i2 + 1]);
                }
                lemma_dec_val_nonneg(val@.subrange(i2 as int + 1, i3 as int));
                lemma_pow10_pos((i3 - i2 - 1) as nat);
                lemma_parse_num_monotone(ip_sp, fnum_sp, fden_sp);
            }
            if i2 == i1 && i3 == i2 + 1 {
                return Err(FormatError::BadNumber { text: val.clone() });
            }
            let ip = match ip_opt {
                Some(v) => v,
                None => {
                    proof {
                        lemma_big_coeff_unfit(sgn_sp, ip_sp * fden_sp + fnum_sp);
                    }
                    return Err(FormatError::NumberTooLarge { text: val.clone() });
                },
            };
            let fv = match fv_opt {
                Some(v) => v,
                None => {
                    proof {
                        lemma_big_coeff_unfit(sgn_sp, ip_sp * fden_sp + fnum_sp);
                    }
                    return Err(FormatError::NumberTooLarge { text: val.clone() });
                },
            };
            let k = i3 - (i2 + 1);
            den = match pow10_exec(k) {
                Some(d) => d,
                None => {
                    proof {
                        assert(fden_sp > i64::MAX as int);
                    }
                    return Err(FormatError::NumberTooLarge { text: val.clone() });
                },
            };
            proof {
                crate::rational::lemma_i64_mul_in_i128(ip as int, den as int);
            }
            let nm: i128 = (ip as i128) * (den as i128) + (fv as i128);
            if nm > i64::MAX as i128 {
                proof {
                    lemma_big_coeff_unfit(sgn_sp, ip_sp * fden_sp + fnum_sp);
                }
                return Err(FormatError::NumberTooLarge { text: val.clone() });
            }
            num = nm as i64;
        } else {
            i3 = i2;
            match ip_opt {
                Some(v) => {
                    num = v;
                },
                None => {
                    proof {
                        assert(ip_sp * 1 + 0 == ip_sp) by (nonlinear_arith);
                        lemma_big_coeff_unfit(sgn_sp, ip_sp);
                    }
                    return Err(FormatError::NumberTooLarge { text: val.clone() });
                },
            }
        }
        let bases = match parse_bases_exec(s, i3) {
            Ok(v) => v,
            Err(e) => {
                return Err(e);
            },
        };
        let final_num: i64 = if i3 == i1 {
            if bases.len() > 0 {
                sgn
            } else {
                0
            }
        } else {
            if sgn == 1 {
                num
            } else {
                -num
            }
        };
        let final_den: i64 = if i3 == i1 {
            1
        } else {
            den
        };
        proof {
            let pc = parse_component(val@);
            assert(pc matches Some(t) && t.0 == final_num && t.1 == final_den && t.2
                == bases@) by {
                if i3 != i1 {
                    assert(sgn as int * (num as int) == final_num as int) by (nonlinear_arith)
                        requires
                            sgn == 1 || sgn == -1,
                            sgn == 1 ==> final_num == num,
                            sgn as int == -1 ==> final_num as int == -(num as int),
                    ;
                }
            }
        }
        Ok(
            crate::component::Component::new(
                crate::rational::Rational::new(final_num, final_den),
                bases,
            ),
        )
    }
}

/// Computes a power of ten, or reports that it does not fit.
fn pow10_exec(k: usize) -> (r: Option<i64>)
    ensures
        r matches Some(v) ==> 1 <= v && v == pow10(k as nat),
        r is None ==> pow10(k as nat) > i64::MAX as int,
{
    let mut den: i64 = 1;
    let mut step: usize = 0;
    proof {
        lemma_pow10_pos(0);
    }
    while step < k
        invariant
            0 <= step <= k,
            1 <= den,
            den == pow10(step as nat),
        decreases k - step,
    {
        if den > i64::MAX / 10 {
            proof {
                assert(pow10((step + 1) as nat) == 10 * pow10(step as nat));
                lemma_pow10_grows((step + 1) as nat, k as nat);
                assert(10 * (den as int) > i64::MAX as int);
            }
            return None;
        }
        den = den * 10;
        step = step + 1;
    }
    Some(den)
}

/// Powers of ten are positive.
proof fn lemma_pow10_pos(k: nat)
    ensures
        pow10(k) >= 1,
    decreases k,
{
    if k > 0 {
        lemma_pow10_pos((k - 1) as nat);
    }
}

/// Powers of ten grow with the exponent.
proof fn lemma_pow10_grows(a: nat, b: nat)
    requires
        a <= b,
    ensures
        pow10(a) <= pow10(b),
    decreases b,
{
    if a < b {
        lemma_pow10_grows(a, (b - 1) as nat);
        lemma_pow10_pos((b - 1) as nat);
    }
}

/// The combined decimal value is at least its integer part scaled.
proof fn lemma_parse_num_monotone(ip: int, fv: int, den: int)
    by (nonlinear_arith)
    requires
        ip >= 0,
        fv >= 0,
        den >= 1,
    ensures
        ip * den + fv >= ip,
        ip * den + fv >= fv,
        ip * den + fv >= 0,
{
}

/// A coefficient beyond the machine range cannot fit, whatever its sign.
proof fn lemma_big_coeff_unfit(sgn: int, x: int)
    by (nonlinear_arith)
    requires
        sgn == 1 || sgn == -1,
        x > i64::MAX as int,
    ensures
        !(-(i64::MAX as int) <= sgn * x <= i64::MAX as int),
{
}

/// The view of the canonical component built from a raw coefficient and
/// basis sequence.
pub open spec fn canon_cv(n: int, d: int, bs: Seq<ONBasis>) -> CompView {
    let f = canon_factor(bs);
    if n * f == 0 {
        CompView::zero_cv()
    } else {
        CompView { num: n * f, den: d, bases: canon_bases(bs) }
    }
}

/// A component whose contract says it canonicalizes `n / d` times `bs` has
/// exactly the view `canon_cv`.
pub proof fn lemma_canon_cv(c: Component, n: int, d: int, bs: Seq<ONBasis>)
    requires
        c.is_canon_of(n, d, bs),
    ensures
        c.cv() == canon_cv(n, d, bs),
{
    if n * canon_factor(bs) == 0 {
        assert(c.bases@ =~= Seq::<ONBasis>::empty());
    }
}

/// The first index at or after `j` holding a sign character, or the length.
pub open spec fn first_sign(s: Seq<char>, j: int) -> int
    decreases s.len() - j,
{
    if j < 0 || j >= s.len() {
        s.len() as int
    } else if s[j] == '+' || s[j] == '-' {
        j
    } else {
        first_sign(s, j + 1)
    }
}

pub proof fn lemma_first_sign_char(s: Seq<char>, j: int, e: int)
    requires
        0 <= j <= e <= s.len(),
        forall|k: int| j <= k < e ==> #[trigger] s[k] != '+' && s[k] != '-',
        e < s.len() ==> s[e] == '+' || s[e] == '-',
    ensures
        first_sign(s, j) == e,
    decreases s.len() - j,
{
    if j < s.len() && !(s[j] == '+' || s[j] == '-') {
        lemma_first_sign_char(s, j + 1, e);
    }
}

/// What a multivector text denotes: segments split before each sign
/// character, each parsed as a component and folded into a running sum.
/// `None` on a malformed segment or a coefficient beyond the machine
/// representation.
pub open spec fn parse_mv_from(s: Seq<char>, i: int, acc: Seq<CompView>) -> Option<Seq<CompView>>
    decreases s.len() - i,
{
    if i >= s.len() {
        Some(acc)
    } else {
        let e0 = first_sign(s, i + 1);
        let e: int = if e0 < i + 1 {
            i + 1
        } else if e0 > s.len() {
            s.len() as int
        } else {
            e0
        };
        match parse_component(s.subrange(i, e)) {
            None => None,
            Some(tr) => {
                if !parse_fits(tr) {
                    None
                } else {
                    let cv = canon_cv(tr.0, tr.1, tr.2);
                    if !comp_add_fits(acc, cv) {
                        None
                    } else {
                        parse_mv_from(s, e, comp_add_spec(acc, cv))
                    }
                }
            },
        }
    }
}

impl Multivector {
    /// Reads a multivector: component texts separated by `+` or `-`, each
    /// sign belonging to the component it opens. The empty text denotes the
    /// zero multivector.
    pub fn from_string(val: &String) -> (r: Result<Multivector, FormatError>)
        ensures
            r is Ok <==> parse_mv_from(val@, 0, Seq::empty()) is Some,
            r matches Ok(m) ==> m.wf() && parse_mv_from(val@, 0, Seq::empty()) == Some(m.cvs()),
    {
        let s = val.as_str();
        let n = s.unicode_len();
        let mut acc = Multivector::zero();
        let mut i: usize = 0;
        proof {
            assert(acc.cvs() =~= Seq::<CompView>::empty());
        }
        while i < n
            invariant
                i <= n,
                n == val@.len(),
                s@ == val@,
                acc.wf(),
                parse_mv_from(val@, 0, Seq::empty()) == parse_mv_from(val@, i as int, acc.cvs()),
            decreases n - i,
        {
            let mut j = i + 1;
            while j < n && s.get_char(j) != '+' && s.get_char(j) != '-'
                invariant
                    i + 1 <= j <= n,
                    n == val@.len(),
                    s@ == val@,
                    forall|k: int| i + 1 <= k < j ==> #[trigger] val@[k] != '+' && val@[k] != '-',
                decreases n - j,
            {
                j = j + 1;
            }
            proof {
                lemma_first_sign_char(val@, i as int + 1, j as int);
            }
            let seg = String::from_str(s.substring_char(i, j));
            proof {
                assert(seg@ == val@.subrange(i as int, j as int));
            }
            let c = match Component::from_string(&seg) {
                Ok(c) => c,
                Err(e) => {
                    return Err(e);
                },
            };
            proof {
                let tr = parse_component(seg@)->Some_0;
                lemma_canon_cv(c, tr.0, tr.1, tr.2);
            }
            if !acc.comp_add_fits_check(&c) {
                return Err(FormatError::NumberTooLarge { text: val.clone() });
            }
            acc = acc.component_add(&c);
            i = j;
        }
        Ok(acc)
    }
}

/// The decimal digits after the point of the fraction `r / den`, produced
/// by long division; `None` when the expansion does not terminate within
/// the fuel.
pub open spec fn frac_digits(r: int, den: int, fuel: nat) -> Option<Seq<char>>
    decreases fuel,
{
    if r == 0 {
        Some(Seq::empty())
    } else if fuel == 0 {
        None
    } else {
        let d = (r * 10) / den;
        let r2 = (r * 10) % den;
        match frac_digits(r2, den, (fuel - 1) as nat) {
            Some(tail) => Some(seq![digit_char(d)] + tail),
            None => None,
        }
    }
}

/// The text of the exact scalar `num / den`: a decimal when the expansion
/// terminates, the plain fraction `a/b` otherwise.
pub open spec fn rat_text(num: int, den: int) -> Seq<char> {
    if num == 0 {
        seq!['0']
    } else {
        let a: int = if num < 0 {
            -num
        } else {
            num
        };
        let sgn: Seq<char> = if num < 0 {
            seq!['-']
        } else {
            Seq::empty()
        };
        let q = a / den;
        let r = a % den;
        if r == 0 {
            sgn + dec_digits(q as nat)
        } else {
            match frac_digits(r, den, 64) {
                Some(fd) => sgn + dec_digits(q as nat) + seq!['.'] + fd,
                None => sgn + dec_digits(a as nat) + seq!['/'] + dec_digits(den as nat),
            }
        }
    }
}

/// The texts of a run of bases, concatenated without separators.
pub open spec fn bases_text(s: Seq<ONBasis>) -> Seq<char>
    decreases s.len(),
{
    if s.len() == 0 {
        Seq::empty()
    } else {
        basis_text(s[0]) + bases_text(s.skip(1))
    }
}

proof fn lemma_bases_text_push(s: Seq<ONBasis>, b: ONBasis)
    ensures
        bases_text(s.push(b)) == bases_text(s) + basis_text(b),
    decreases s.len(),
{
    if s.len() == 0 {
        assert(s.push(b)[0] == b);
        assert(s.push(b).skip(1) =~= Seq::<ONBasis>::empty());
        assert(bases_text(s.push(b)) == basis_text(b) + bases_text(s.push(b).skip(1)));
        assert(bases_text(Seq::<ONBasis>::empty()) == Seq::<char>::empty());
        assert(bases_text(s) == Seq::<char>::empty());
        assert(basis_text(b) + Seq::<char>::empty() =~= Seq::<char>::empty() + basis_text(b));
    } else {
        assert(s.push(b)[0] == s[0]);
        assert(s.push(b).skip(1) =~= s.skip(1).push(b));
        lemma_bases_text_push(s.skip(1), b);
        assert(basis_text(s[0]) + (bases_text(s.skip(1)) + basis_text(b)) =~= (basis_text(s[0])
            + bases_text(s.skip(1))) + basis_text(b));
    }
}

/// The text of a component: its coefficient, then its basis tokens.
pub open spec fn comp_text(c: CompView) -> Seq<char> {
    rat_text(c.num, c.den) + bases_text(c.bases)
}

/// The text of a multivector: its terms' texts, a `+` spliced in before
/// every non-negative term after the first. A negative term supplies its
/// own leading minus sign.
pub open spec fn mv_text_rest(s: Seq<CompView>) -> Seq<char>
    decreases s.len(),
{
    if s.len() == 0 {
        Seq::empty()
    } else {
        (if s[0].num >= 0 {
            seq!['+']
        } else {
            Seq::empty()
        }) + comp_text(s[0]) + mv_text_rest(s.skip(1))
    }
}

pub open spec fn mv_text(s: Seq<CompView>) -> Seq<char> {
    if s.len() == 0 {
        Seq::empty()
    } else {
        comp_text(s[0]) + mv_text_rest(s.skip(1))
    }
}

/// Every character of a basis text except the last differs from the
/// closing parenthesis, which ends it.
proof fn lemma_basis_text_shape(b: ONBasis)
    ensures
        basis_text(b).len() >= 4,
        forall|k: int| 0 <= k < basis_text(b).len() - 1 ==> #[trigger] basis_text(b)[k] != ')',
        basis_text(b).last() == ')',
        !is_digit(basis_text(b)[0]),
        basis_text(b)[0] != '.',
        basis_text(b)[0] != '+',
        basis_text(b)[0] != '-',
{
    lemma_dec_digits_canonical(b.id());
    let s = basis_text(b);
    assert forall|k: int| 0 <= k < s.len() - 1 implies #[trigger] s[k] != ')' by {
        if k >= 2 {
            assert(s[k] == dec_digits(b.id())[k - 2]);
            assert(is_digit(s[k]));
        }
    }
}

/// A run of basis texts starting at position `i` of a larger text parses
/// back to exactly those bases.
proof fn lemma_parse_bases_of_text(full: Seq<char>, i: int, bs: Seq<ONBasis>)
    requires
        0 <= i <= full.len(),
        full.subrange(i, full.len() as int) == bases_text(bs),
    ensures
        parse_bases(full, i) == Some(bs),
    decreases bs.len(),
{
    if bs.len() == 0 {
        assert(i == full.len());
        assert(parse_bases(full, i) == Some(Seq::<ONBasis>::empty()));
        assert(bs =~= Seq::<ONBasis>::empty());
    } else {
        let bt0 = basis_text(bs[0]);
        let rest = bases_text(bs.skip(1));
        assert(bases_text(bs) == bt0 + rest);
        lemma_basis_text_shape(bs[0]);
        let p = i + bt0.len() - 1;
        assert(forall|k: int|
            i <= k < full.len() ==> #[trigger] full[k] == bases_text(bs)[k - i]);
        assert(full[p] == ')') by {
            assert(bases_text(bs)[p - i] == bt0[bt0.len() - 1]);
        }
        assert(forall|k: int| i <= k < p ==> #[trigger] full[k] != ')') by {
            assert(forall|k: int| i <= k < p ==> full[k] == bt0[k - i]);
        }
        lemma_paren_end_char(full, i, p);
        assert(full.subrange(i, p + 1) =~= bt0);
        lemma_basis_text_round_trip(bs[0]);
        assert(basis_of_text(full.subrange(i, p + 1)) == Some(bs[0]));
        assert(full.subrange(p + 1, full.len() as int) =~= rest);
        lemma_parse_bases_of_text(full, p + 1, bs.skip(1));
        assert(seq![bs[0]] + bs.skip(1) =~= bs);
    }
}

/// Printing a component with an integer coefficient and reading the text
/// back recovers exactly its coefficient and bases. Together with the
/// idempotence of canonicalization this is the textual round trip for
/// integer-coefficient components.
pub proof fn lemma_component_text_round_trip(c: Component)
    requires
        c.wf(),
        c.mag.den == 1,
    ensures
        parse_component(comp_text(c.cv())) == Some((c.mag.num as int, 1int, c.bases@)),
{
    lemma_comp_text_parse(c.mag.num as int, c.bases@);
}

/// The view-level core of the integer-coefficient round trip.
pub proof fn lemma_comp_text_parse(n: int, bs: Seq<ONBasis>)
    requires
        n > i64::MIN as int,
        n <= i64::MAX as int,
        crate::canon::sorted_ids(bs),
        n == 0 ==> bs.len() == 0,
    ensures
        parse_component(comp_text((CompView { num: n, den: 1, bases: bs }))) == Some(
            (n, 1int, bs),
        ),
{
    let full = comp_text(CompView { num: n, den: 1, bases: bs });
    if n == 0 {
        assert(bases_text(bs) == Seq::<char>::empty());
        assert(full =~= seq!['0']);
        assert(full[0] == '0');
        assert(is_digit(full[0]));
        lemma_digits_end_char(full, 0, 1);
        assert(parse_bases(full, 1) == Some(Seq::<ONBasis>::empty()));
        assert(full.subrange(0, 1) =~= seq!['0']);
        assert(seq!['0'].take(0) =~= Seq::<char>::empty());
        assert(dec_val(Seq::<char>::empty()) == 0);
        assert(seq!['0'].last() == '0');
        assert(digit_val('0') == 0);
        assert(dec_val(seq!['0']) == dec_val(seq!['0'].take(0)) * 10 + digit_val(seq!['0'].last()));
        assert(0int * 10 + 0 == 0) by (nonlinear_arith);
        assert(1int * (0int * 1 + 0) == 0) by (nonlinear_arith);
        assert(bs =~= Seq::<ONBasis>::empty());
        assert(parse_component(full) == Some((0int, 1int, bs)));
    } else {
        let a: int = if n < 0 {
            -n
        } else {
            n
        };
        assert(a % 1 == 0 && a / 1 == a);
        let digits = dec_digits(a as nat);
        lemma_dec_digits_canonical(a as nat);
        lemma_dec_val_of_digits(a as nat);
        let sgn_txt: Seq<char> = if n < 0 {
            seq!['-']
        } else {
            Seq::empty()
        };
        assert(rat_text(n, 1) == sgn_txt + digits);
        let i1: int = sgn_txt.len() as int;
        let i2: int = i1 + digits.len();
        assert(forall|k: int|
            0 <= k < digits.len() ==> #[trigger] full[k + i1] == digits[k]);
        if n < 0 {
            assert(full[0] == '-');
        } else {
            assert(full[0] == digits[0]);
            assert(is_digit(full[0]));
            assert(full[0] != '-' && full[0] != '+');
        }
        assert(forall|k: int| i1 <= k < i2 ==> is_digit(#[trigger] full[k]));
        if bs.len() > 0 {
            lemma_basis_text_shape(bs[0]);
            assert(full[i2] == basis_text(bs[0])[0]) by {
                assert(bases_text(bs) == basis_text(bs[0]) + bases_text(bs.skip(1)));
            }
            assert(!is_digit(full[i2]) && full[i2] != '.');
        }
        lemma_digits_end_char(full, i1, i2);
        assert(full.subrange(i1, i2) =~= digits);
        assert(full.subrange(i2, full.len() as int) =~= bases_text(bs));
        lemma_parse_bases_of_text(full, i2, bs);
        let sg: int = if n < 0 {
            -1
        } else {
            1
        };
        assert(sg * (a * 1 + 0) == n) by (nonlinear_arith)
            requires
                (n < 0 ==> sg == -1 && a == -n) && (n >= 0 ==> sg == 1 && a == n),
        ;
        assert(parse_component(full) == Some((n, 1int, bs)));
    }
}

/// A component text with an explicit leading plus parses back to the same
/// positive integer coefficient and bases.
pub proof fn lemma_comp_text_parse_plus(n: int, bs: Seq<ONBasis>)
    requires
        0 < n,
        n <= i64::MAX as int,
        crate::canon::sorted_ids(bs),
    ensures
        parse_component(seq!['+'] + comp_text((CompView { num: n, den: 1, bases: bs })))
            == Some((n, 1int, bs)),
{
    let full = seq!['+'] + comp_text(CompView { num: n, den: 1, bases: bs });
    assert(n % 1 == 0 && n / 1 == n);
    let digits = dec_digits(n as nat);
    lemma_dec_digits_canonical(n as nat);
    lemma_dec_val_of_digits(n as nat);
    assert(rat_text(n, 1) == digits);
    assert(full[0] == '+');
    let i1: int = 1;
    let i2: int = i1 + digits.len();
    assert(forall|k: int| 0 <= k < digits.len() ==> #[trigger] full[k + i1] == digits[k]);
    assert(forall|k: int| i1 <= k < i2 ==> is_digit(#[trigger] full[k]));
    if bs.len() > 0 {
        lemma_basis_text_shape(bs[0]);
        assert(full[i2] == basis_text(bs[0])[0]) by {
            assert(bases_text(bs) == basis_text(bs[0]) + bases_text(bs.skip(1)));
        }
        assert(!is_digit(full[i2]) && full[i2] != '.');
    }
    lemma_digits_end_char(full, i1, i2);
    assert(full.subrange(i1, i2) =~= digits);
    assert(full.subrange(i2, full.len() as int) =~= bases_text(bs));
    lemma_parse_bases_of_text(full, i2, bs);
    assert(1int * (n * 1 + 0) == n) by (nonlinear_arith);
    assert(parse_component(full) == Some((n, 1int, bs)));
}

/// Sign characters differ from every character a digit run or a basis run
/// can contain.
proof fn lemma_bases_text_no_sign(bs: Seq<ONBasis>)
    ensures
        forall|k: int|
            0 <= k < bases_text(bs).len() ==> #[trigger] bases_text(bs)[k] != '+' && bases_text(
                bs,
            )[k] != '-',
    decreases bs.len(),
{
    if bs.len() > 0 {
        lemma_bases_text_no_sign(bs.skip(1));
        let bt0 = basis_text(bs[0]);
        lemma_dec_digits_canonical(bs[0].id());
        assert(forall|k: int|
            0 <= k < bt0.len() ==> #[trigger] bt0[k] != '+' && bt0[k] != '-') by {
            assert(forall|k: int| 2 <= k < bt0.len() - 1 ==> bt0[k] == dec_digits(bs[0].id())[k
                - 2] && is_digit(bt0[k]));
        }
        assert forall|k: int| 0 <= k < bases_text(bs).len() implies #[trigger] bases_text(
            bs,
        )[k] != '+' && bases_text(bs)[k] != '-' by {
            if k < bt0.len() {
                assert(bases_text(bs)[k] == bt0[k]);
            } else {
                assert(bases_text(bs)[k] == bases_text(bs.skip(1))[k - bt0.len()]);
            }
        }
    }
}

/// The text of a component with an integer coefficient holds no sign
/// character after its first position.
proof fn lemma_comp_text_no_sign(c: CompView)
    requires
        c.den == 1,
        c.num > i64::MIN as int,
    ensures
        forall|k: int|
            1 <= k < comp_text(c).len() ==> #[trigger] comp_text(c)[k] != '+' && comp_text(c)[k]
                != '-',
{
    let full = comp_text(c);
    let rt = rat_text(c.num, 1);
    lemma_bases_text_no_sign(c.bases);
    if c.num == 0 {
        assert(rt == seq!['0']);
    } else {
        let a: int = if c.num < 0 {
            -c.num
        } else {
            c.num
        };
        assert(a % 1 == 0 && a / 1 == a);
        lemma_dec_digits_canonical(a as nat);
        let sgn_txt: Seq<char> = if c.num < 0 {
            seq!['-']
        } else {
            Seq::empty()
        };
        assert(rt == sgn_txt + dec_digits(a as nat));
    }
    assert forall|k: int| 1 <= k < full.len() implies #[trigger] full[k] != '+' && full[k]
        != '-' by {
        if k < rt.len() {
            assert(full[k] == rt[k]);
            if c.num != 0 {
                let a: int = if c.num < 0 {
                    -c.num
                } else {
                    c.num
                };
                let sl: int = if c.num < 0 {
                    1
                } else {
                    0
                };
                if k >= sl {
                    assert(rt[k] == dec_digits(a as nat)[k - sl]);
                    assert(is_digit(rt[k]));
                }
            }
        } else {
            assert(full[k] == bases_text(c.bases)[k - rt.len()]);
        }
    }
}

/// Adding a fresh term whose grade is at least every accumulated grade
/// simply appends it.
proof fn lemma_comp_add_appends(acc: Seq<CompView>, cv: CompView)
    requires
        cv.num != 0,
        forall|p: int| 0 <= p < acc.len() ==> (#[trigger] acc[p]).bases != cv.bases,
        forall|p: int| 0 <= p < acc.len() ==> (#[trigger] acc[p]).grade() <= cv.grade(),
    ensures
        comp_add_fits(acc, cv),
        comp_add_spec(acc, cv) == acc.push(cv),
{
    crate::multivector::lemma_find_bases_char(acc, cv.bases, acc.len() as int);
    crate::multivector::lemma_first_gt_char(cv.grade(), acc, acc.len() as int);
    assert(acc.insert(acc.len() as int, cv) =~= acc.push(cv));
}

/// The segment text a term contributes: a plus before a non-negative
/// coefficient, the component text itself otherwise.
pub open spec fn seg_text(c: CompView) -> Seq<char> {
    (if c.num >= 0 {
        seq!['+']
    } else {
        Seq::<char>::empty()
    }) + comp_text(c)
}

/// The first character of an integer-coefficient component text is never a
/// sign except for a negative coefficient's own minus.
proof fn lemma_comp_text_head(c: CompView)
    requires
        c.den == 1,
        c.num > i64::MIN as int,
        c.num == 0 ==> c.bases.len() == 0,
    ensures
        comp_text(c).len() >= 1,
        c.num >= 0 ==> comp_text(c)[0] != '+' && comp_text(c)[0] != '-',
        c.num < 0 ==> comp_text(c)[0] == '-',
{
    let ct = comp_text(c);
    if c.num == 0 {
        assert(rat_text(0, 1) == seq!['0']);
        assert(ct[0] == '0');
    } else {
        let a: int = if c.num < 0 {
            -c.num
        } else {
            c.num
        };
        assert(a % 1 == 0 && a / 1 == a);
        lemma_dec_digits_canonical(a as nat);
        if c.num > 0 {
            assert(rat_text(c.num, 1) == dec_digits(a as nat));
            assert(ct[0] == dec_digits(a as nat)[0]);
            assert(is_digit(ct[0]));
        } else {
            assert(rat_text(c.num, 1) == seq!['-'] + dec_digits(a as nat));
            assert(ct[0] == '-');
        }
    }
}

/// The boundaries of one segment of a multivector text: the scan from just
/// inside the segment stops exactly at the next segment.
#[verifier::rlimit(50)]
proof fn lemma_segment_bounds(full: Seq<char>, i: int, m: Seq<CompView>, k: int)
    requires
        0 <= i <= full.len(),
        0 <= k < m.len(),
        full.subrange(i, full.len() as int) == mv_text_rest(m.skip(k)),
        forall|p: int|
            0 <= p < m.len() ==> (#[trigger] m[p]).den == 1 && m[p].num != 0 && m[p].num
                <= i64::MAX as int && m[p].num > i64::MIN as int && crate::canon::sorted_ids(
                m[p].bases,
            ),
    ensures
        i + seg_text(m[k]).len() <= full.len(),
        first_sign(full, i + 1) == i + seg_text(m[k]).len(),
        full.subrange(i, i + seg_text(m[k]).len()) == seg_text(m[k]),
        full.subrange(i + seg_text(m[k]).len(), full.len() as int) == mv_text_rest(
            m.skip(k + 1),
        ),
{
    let ts = m.skip(k);
    let c0 = m[k];
    assert(ts[0] == c0);
    let sgnp: Seq<char> = if c0.num >= 0 {
        seq!['+']
    } else {
        Seq::empty()
    };
    let ct = comp_text(c0);
    assert(mv_text_rest(ts) == sgnp + ct + mv_text_rest(ts.skip(1)));
    let seg = seg_text(c0);
    assert(seg == sgnp + ct);
    let e: int = i + seg.len();
    assert(forall|z: int|
        i <= z < full.len() ==> #[trigger] full[z] == mv_text_rest(ts)[z - i]);
    lemma_comp_text_no_sign(c0);
    lemma_comp_text_head(c0);
    assert forall|z: int| i + 1 <= z < e implies #[trigger] full[z] != '+' && full[z]
        != '-' by {
        let w = z - i - sgnp.len();
        assert(full[z] == ct[w]);
        if w == 0 {
            assert(c0.num >= 0);
        }
    }
    assert(e < full.len() ==> full[e] == '+' || full[e] == '-') by {
        if e < full.len() {
            let nxt = mv_text_rest(ts.skip(1));
            assert(ts.skip(1)[0] == m[k + 1]);
            assert(full[e] == nxt[0]);
            lemma_comp_text_head(m[k + 1]);
            if m[k + 1].num >= 0 {
                assert(nxt[0] == '+');
            } else {
                assert(nxt == comp_text(m[k + 1]) + mv_text_rest(ts.skip(1).skip(1)));
                assert(nxt[0] == comp_text(m[k + 1])[0]);
            }
        }
    }
    assert(e <= full.len()) by {
        assert(mv_text_rest(ts).len() >= seg.len());
    }
    assert(e == full.len() ==> ts.skip(1).len() == 0) by {
        if ts.skip(1).len() > 0 {
            let nxt = mv_text_rest(ts.skip(1));
            lemma_comp_text_head(ts.skip(1)[0]);
            assert(nxt.len() >= comp_text(ts.skip(1)[0]).len());
        }
    }
    lemma_first_sign_char(full, i + 1, e);
    assert(full.subrange(i, e) =~= seg);
    assert(full.subrange(e, full.len() as int) =~= mv_text_rest(m.skip(k + 1))) by {
        assert(ts.skip(1) =~= m.skip(k + 1));
    }
}

/// Reading the remaining sign-prefixed segments of a multivector text folds
/// the remaining terms onto the accumulated prefix.
#[verifier::rlimit(50)]
proof fn lemma_parse_mv_segments(full: Seq<char>, i: int, m: Seq<CompView>, k: int)
    requires
        0 <= i <= full.len(),
        1 <= k <= m.len(),
        full.subrange(i, full.len() as int) == mv_text_rest(m.skip(k)),
        forall|p: int|
            0 <= p < m.len() ==> (#[trigger] m[p]).den == 1 && m[p].num != 0 && m[p].num
                <= i64::MAX as int && m[p].num > i64::MIN as int && crate::canon::sorted_ids(
                m[p].bases,
            ),
        crate::multivector::grade_sorted(m),
        forall|p: int, q: int| 0 <= p < q < m.len() ==> m[p].bases != m[q].bases,
    ensures
        parse_mv_from(full, i, m.take(k)) == Some(m),
    decreases m.len() - k,
{
    if k == m.len() {
        assert(m.skip(k) =~= Seq::<CompView>::empty());
        assert(full.subrange(i, full.len() as int).len() == 0);
        assert(i == full.len());
        assert(m.take(k) =~= m);
    } else {
        let c0 = m[k];
        lemma_segment_bounds(full, i, m, k);
        let e: int = i + seg_text(c0).len();
        if c0.num >= 0 {
            lemma_comp_text_parse_plus(c0.num, c0.bases);
            assert(seg_text(c0) == seq!['+'] + comp_text(
                CompView { num: c0.num, den: 1, bases: c0.bases },
            )) by {
                assert(c0 == CompView { num: c0.num, den: 1, bases: c0.bases });
            }
        } else {
            lemma_comp_text_parse(c0.num, c0.bases);
            assert(seg_text(c0) =~= comp_text(CompView { num: c0.num, den: 1, bases: c0.bases }));
        }
        assert(parse_component(full.subrange(i, e)) == Some((c0.num, 1int, c0.bases)));
        crate::canon::lemma_canon_of_sorted(c0.bases);
        assert(c0.num * 1 == c0.num) by (nonlinear_arith);
        assert(canon_cv(c0.num, 1, c0.bases) == c0);
        assert(forall|p: int|
            0 <= p < m.take(k).len() ==> (#[trigger] m.take(k)[p]).bases != c0.bases);
        assert(forall|p: int|
            0 <= p < m.take(k).len() ==> (#[trigger] m.take(k)[p]).grade() <= c0.grade());
        lemma_comp_add_appends(m.take(k), c0);
        assert(m.take(k).push(c0) =~= m.take(k + 1));
        lemma_parse_mv_segments(full, e, m, k + 1);
    }
}

/// The textual round trip for multivectors whose terms carry nonzero
/// integer coefficients over distinct basis sets: printing and reading back
/// recovers exactly the same terms.
#[verifier::rlimit(50)]
pub proof fn lemma_multivector_text_round_trip(m: Multivector)
    requires
        m.wf(),
        forall|p: int|
            0 <= p < m.cvs().len() ==> (#[trigger] m.cvs()[p]).den == 1 && m.cvs()[p].num != 0,
        forall|p: int, q: int|
            0 <= p < q < m.cvs().len() ==> m.cvs()[p].bases != m.cvs()[q].bases,
    ensures
        parse_mv_from(mv_text(m.cvs()), 0, Seq::empty()) == Some(m.cvs()),
{
    let s = m.cvs();
    assert forall|p: int| 0 <= p < s.len() implies (#[trigger] s[p]).den == 1 && s[p].num != 0
        && s[p].num <= i64::MAX as int && s[p].num > i64::MIN as int && crate::canon::sorted_ids(
        s[p].bases,
    ) by {
        assert(m.components@[p].wf());
        assert(s[p] == m.components@[p].cv());
    }
    let full = mv_text(s);
    if s.len() == 0 {
        assert(full.len() == 0);
        assert(Seq::<CompView>::empty() =~= s);
    } else {
        let c0 = s[0];
        let ct = comp_text(c0);
        assert(full == ct + mv_text_rest(s.skip(1)));
        let e: int = ct.len() as int;
        lemma_comp_text_no_sign(c0);
        lemma_comp_text_head(c0);
        assert forall|z: int| 1 <= z < e implies #[trigger] full[z] != '+' && full[z] != '-' by {
            assert(full[z] == ct[z]);
        }
        assert(e < full.len() ==> full[e] == '+' || full[e] == '-') by {
            if e < full.len() {
                let nxt = mv_text_rest(s.skip(1));
                assert(s.skip(1)[0] == s[1]);
                assert(full[e] == nxt[0]);
                lemma_comp_text_head(s[1]);
                if s[1].num >= 0 {
                    assert(nxt[0] == '+');
                } else {
                    assert(nxt == comp_text(s[1]) + mv_text_rest(s.skip(1).skip(1)));
                    assert(nxt[0] == comp_text(s[1])[0]);
                }
            }
        }
        assert(e == full.len() ==> s.skip(1).len() == 0) by {
            if s.skip(1).len() > 0 {
                let nxt = mv_text_rest(s.skip(1));
                lemma_comp_text_head(s.skip(1)[0]);
                assert(nxt.len() >= comp_text(s.skip(1)[0]).len());
            }
        }
        lemma_first_sign_char(full, 1, e);
        assert(full.subrange(0, e) =~= ct);
        lemma_comp_text_parse(c0.num, c0.bases);
        assert(ct =~= comp_text(CompView { num: c0.num, den: 1, bases: c0.bases }));
        assert(parse_component(full.subrange(0, e)) == Some((c0.num, 1int, c0.bases)));
        crate::canon::lemma_canon_of_sorted(c0.bases);
        assert(c0.num * 1 == c0.num) by (nonlinear_arith);
        assert(canon_cv(c0.num, 1, c0.bases) == c0);
        lemma_comp_add_appends(Seq::<CompView>::empty(), c0);
        assert(Seq::<CompView>::empty().push(c0) =~= s.take(1));
        assert(full.subrange(e, full.len() as int) =~= mv_text_rest(s.skip(1)));
        lemma_parse_mv_segments(full, e, s, 1);
    }
}

impl Rational {
    /// The text of the scalar: a terminating decimal when one exists, the
    /// exact fraction otherwise.
    pub fn to_string(&self) -> (out: String)
        requires
            self.wf(),
        ensures
            out@ == rat_text(self.num as int, self.den as int),
    {
        if self.num == 0 {
            let mut out = String::new();
            out.append("0");
            proof {
                reveal_strlit("0");
                assert(out@ =~= rat_text(0, self.den as int));
            }
            return out;
        }
        let mut out = String::new();
        if self.num < 0 {
            out.append("-");
        }
        proof {
            reveal_strlit("-");
        }
        let a: i64 = if self.num < 0 {
            -self.num
        } else {
            self.num
        };
        let q = a / self.den;
        let r0 = a % self.den;
        if r0 == 0 {
            push_dec(&mut out, q as u64);
            proof {
                assert(out@ =~= rat_text(self.num as int, self.den as int));
            }
            return out;
        }
        // long division, at most 64 fraction digits
        let mut frac = String::new();
        let mut r: i64 = r0;
        let mut fuel: u64 = 64;
        while r != 0 && fuel > 0
            invariant
                0 <= r < self.den,
                self.den > 0,
                fuel <= 64,
                frac_digits(r0 as int, self.den as int, 64) == (match frac_digits(
                    r as int,
                    self.den as int,
                    fuel as nat,
                ) {
                    Some(tail) => Some(frac@ + tail),
                    None => None::<Seq<char>>,
                }),
            decreases fuel,
        {
            let r10: i128 = (r as i128) * 10;
            let d = (r10 / (self.den as i128)) as i64;
            let rn = (r10 % (self.den as i128)) as i64;
            proof {
                assert(0 <= r10 / (self.den as i128) <= 9 && 0 <= r10 % (self.den as i128)
                    < self.den as i128) by (nonlinear_arith)
                    requires
                        0 <= r10 < 10 * (self.den as i128),
                        self.den as i128 >= 1,
                ;
            }
            let ghost pre = frac@;
            match d {
                0 => frac.append("0"),
                1 => frac.append("1"),
                2 => frac.append("2"),
                3 => frac.append("3"),
                4 => frac.append("4"),
                5 => frac.append("5"),
                6 => frac.append("6"),
                7 => frac.append("7"),
                8 => frac.append("8"),
                _ => frac.append("9"),
            }
            proof {
                reveal_strlit("0");
                reveal_strlit("1");
                reveal_strlit("2");
                reveal_strlit("3");
                reveal_strlit("4");
                reveal_strlit("5");
                reveal_strlit("6");
                reveal_strlit("7");
                reveal_strlit("8");
                reveal_strlit("9");
                assert(frac@ =~= pre + seq![digit_char(d as int)]);
                assert(forall|tail: Seq<char>| (pre + (seq![digit_char(d as int)] + tail)) =~= (
                (pre + seq![digit_char(d as int)]) + tail));
            }
            r = rn;
            fuel = fuel - 1;
        }
        if r == 0 {
            proof {
                assert(frac_digits(r0 as int, self.den as int, 64) == Some(frac@)) by {
                    assert(frac@ + Seq::<char>::empty() =~= frac@);
                }
            }
            push_dec(&mut out, q as u64);
            out.append(".");
            out.append(frac.as_str());
            proof {
                reveal_strlit(".");
                assert(out@ =~= rat_text(self.num as int, self.den as int));
            }
            out
        } else {
            proof {
                assert(frac_digits(r0 as int, self.den as int, 64) is None);
            }
            push_dec(&mut out, a as u64);
            out.append("/");
            push_dec(&mut out, self.den as u64);
            proof {
                reveal_strlit("/");
                assert(out@ =~= rat_text(self.num as int, self.den as int));
            }
            out
        }
    }
}

impl Component {
    /// The text of the component: coefficient then basis tokens.
    pub fn to_string(&self) -> (out: String)
        requires
            self.wf(),
        ensures
            out@ == comp_text(self.cv()),
    {
        let mut out = self.mag.to_string();
        let mut i: usize = 0;
        proof {
            assert(self.bases@.take(0) =~= Seq::<ONBasis>::empty());
            assert(out@ + Seq::<char>::empty() =~= out@);
        }
        while i < self.bases.len()
            invariant
                i <= self.bases@.len(),
                self.wf(),
                out@ == rat_text(self.cv().num, self.cv().den) + bases_text(
                    self.bases@.take(i as int),
                ),
            decreases self.bases@.len() - i,
        {
            let bt = self.bases[i].to_string();
            out.append(bt.as_str());
            proof {
                lemma_bases_text_push(self.bases@.take(i as int), self.bases@[i as int]);
                assert(self.bases@.take(i as int + 1) =~= self.bases@.take(i as int).push(
                    self.bases@[i as int],
                ));
                assert(out@ =~= rat_text(self.cv().num, self.cv().den) + bases_text(
                    self.bases@.take(i as int + 1),
                ));
            }
            i = i + 1;
        }
        proof {
            assert(self.bases@.take(self.bases@.len() as int) =~= self.bases@);
        }
        out
    }
}

proof fn lemma_mv_text_rest_push(s: Seq<CompView>, c: CompView)
    ensures
        mv_text_rest(s.push(c)) == mv_text_rest(s) + (if c.num >= 0 {
            seq!['+']
        } else {
            Seq::<char>::empty()
        }) + comp_text(c),
    decreases s.len(),
{
    let sgn: Seq<char> = if c.num >= 0 {
        seq!['+']
    } else {
        Seq::empty()
    };
    if s.len() == 0 {
        assert(s.push(c)[0] == c);
        assert(s.push(c).skip(1) =~= Seq::<CompView>::empty());
        assert(mv_text_rest(s.push(c)) == sgn + comp_text(c) + mv_text_rest(s.push(c).skip(1)));
        assert(mv_text_rest(Seq::<CompView>::empty()) == Seq::<char>::empty());
        assert(mv_text_rest(s) == Seq::<char>::empty());
        assert(sgn + comp_text(c) + Seq::<char>::empty() =~= Seq::<char>::empty() + sgn
            + comp_text(c));
    } else {
        assert(s.push(c)[0] == s[0]);
        assert(s.push(c).skip(1) =~= s.skip(1).push(c));
        lemma_mv_text_rest_push(s.skip(1), c);
        let h: Seq<char> = if s[0].num >= 0 {
            seq!['+']
        } else {
            Seq::empty()
        };
        assert(mv_text_rest(s.push(c)) == h + comp_text(s[0]) + (mv_text_rest(s.skip(1)) + sgn
            + comp_text(c)));
        assert(h + comp_text(s[0]) + (mv_text_rest(s.skip(1)) + sgn + comp_text(c)) =~= (h
            + comp_text(s[0]) + mv_text_rest(s.skip(1))) + sgn + comp_text(c));
    }
}

impl Multivector {
    /// The text of the multivector: its terms joined by `+` or `-`
    /// according to each term's sign. The zero multivector prints as the
    /// empty string.
    pub fn to_string(&self) -> (out: String)
        requires
            self.wf(),
        ensures
            out@ == mv_text(self.cvs()),
    {
        let mut out = String::new();
        if self.components.len() == 0 {
            proof {
                assert(out@ =~= mv_text(self.cvs()));
            }
            return out;
        }
        let first = self.components[0].to_string();
        out.append(first.as_str());
        let mut i: usize = 1;
        proof {
            assert(self.cvs().subrange(1, 1) =~= Seq::<CompView>::empty());
            assert(out@ + Seq::<char>::empty() =~= out@);
            assert(self.cvs()[0] == self.components@[0].cv());
        }
        while i < self.components.len()
            invariant
                1 <= i <= self.components@.len(),
                self.wf(),
                self.components@.len() >= 1,
                out@ == comp_text(self.cvs()[0]) + mv_text_rest(self.cvs().subrange(1, i as int)),
            decreases self.components@.len() - i,
        {
            let ghost pre = self.cvs().subrange(1, i as int);
            if !self.components[i].mag.is_zero() && self.components[i].mag.num < 0 {
            } else {
                out.append("+");
            }
            let ct = self.components[i].to_string();
            out.append(ct.as_str());
            proof {
                reveal_strlit("+");
                lemma_mv_text_rest_push(pre, self.cvs()[i as int]);
                assert(self.cvs().subrange(1, i as int + 1) =~= pre.push(self.cvs()[i as int]));
                assert(out@ =~= comp_text(self.cvs()[0]) + mv_text_rest(
                    self.cvs().subrange(1, i as int + 1),
                ));
            }
            i = i + 1;
        }
        proof {
            assert(self.cvs().subrange(1, self.components@.len() as int) =~= self.cvs().skip(1));
        }
        out
    }
}

} // verus!
