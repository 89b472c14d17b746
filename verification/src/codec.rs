//! Wire codec: the textual framing spoken on the external bus and by
//! clients.
//!
//! Field values — identities, room names, payload text — are arbitrary
//! text, so frames carry them behind decimal length markers (`len:value`)
//! rather than separators that a value could contain. The length notation
//! is canonical (no leading zeroes), which makes every well-formed frame
//! the encoding of exactly one value: `decode` inverts `encode`, proved
//! below.
use vstd::prelude::*;

use vstd::arithmetic::div_mod::{lemma_fundamental_div_mod, lemma_fundamental_div_mod_converse};

verus! {

/// The numeric value of a decimal digit character, `-1` for any other
/// character.
pub open spec fn digit_val(c: char) -> int {
    if c == '0' { 0 }
    else if c == '1' { 1 }
    else if c == '2' { 2 }
    else if c == '3' { 3 }
    else if c == '4' { 4 }
    else if c == '5' { 5 }
    else if c == '6' { 6 }
    else if c == '7' { 7 }
    else if c == '8' { 8 }
    else if c == '9' { 9 }
    else { -1 }
}

pub open spec fn is_digit(c: char) -> bool {
    digit_val(c) >= 0
}

/// The decimal digit character of a value below ten.
pub open spec fn digit_char(d: int) -> char {
    if d == 0 { '0' }
    else if d == 1 { '1' }
    else if d == 2 { '2' }
    else if d == 3 { '3' }
    else if d == 4 { '4' }
    else if d == 5 { '5' }
    else if d == 6 { '6' }
    else if d == 7 { '7' }
    else if d == 8 { '8' }
    else { '9' }
}

/// The canonical decimal notation of `n`, most significant digit first.
pub open spec fn dec_rep(n: nat) -> Seq<char>
    decreases n,
{
    if n < 10 {
        seq![digit_char(n as int)]
    } else {
        dec_rep(n / 10).push(digit_char((n % 10) as int))
    }
}

/// The value of a digit sequence (most significant first).
pub open spec fn digits_val(s: Seq<char>) -> int
    decreases s.len(),
{
    if s.len() == 0 {
        0
    } else {
        digits_val(s.drop_last()) * 10 + digit_val(s.last())
    }
}

pub open spec fn all_digits(s: Seq<char>) -> bool {
    forall|i: int| 0 <= i < s.len() ==> is_digit(#[trigger] s[i])
}

proof fn lemma_digit_roundtrip(d: int)
    requires
        0 <= d < 10,
    ensures
        digit_val(digit_char(d)) == d,
        is_digit(digit_char(d)),
        digit_char(d) != ':',
{
}

proof fn lemma_char_roundtrip(c: char)
    requires
        is_digit(c),
    ensures
        digit_char(digit_val(c)) == c,
{
}

/// The canonical notation is non-empty, all digits, reads back to its
/// value, and never starts with a zero unless it is the single digit `0`.
pub proof fn lemma_dec_rep_props(n: nat)
    ensures
        dec_rep(n).len() >= 1,
        all_digits(dec_rep(n)),
        digits_val(dec_rep(n)) == n,
        n < 10 <==> dec_rep(n).len() == 1,
        dec_rep(n).len() > 1 ==> dec_rep(n)[0] != '0',
    decreases n,
{
    if n < 10 {
        lemma_digit_roundtrip(n as int);
        let s = dec_rep(n);
        assert(s =~= seq![digit_char(n as int)]);
        assert(s.drop_last() =~= Seq::<char>::empty());
        assert(digits_val(s.drop_last()) == 0);
        assert(digits_val(s) == digit_val(s.last()));
    } else {
        lemma_dec_rep_props(n / 10);
        lemma_digit_roundtrip((n % 10) as int);
        let front = dec_rep(n / 10);
        let s = dec_rep(n);
        assert(s == front.push(digit_char((n % 10) as int)));
        assert forall|i: int| 0 <= i < s.len() implies is_digit(#[trigger] s[i]) by {
            if i < front.len() {
                assert(s[i] == front[i]);
            }
        }
        assert(s.drop_last() =~= front);
        assert(digits_val(s) == digits_val(front) * 10 + (n % 10));
        lemma_fundamental_div_mod(n as int, 10);
        assert(s[0] == front[0]);
        if front.len() == 1 {
            assert(n / 10 >= 1);
            assert(front[0] == digit_char((n / 10) as int));
            lemma_digit_roundtrip((n / 10) as int);
            assert(digit_val(front[0]) == n / 10 >= 1);
            assert(front[0] != '0');
        }
    }
}

proof fn lemma_digits_val_nonneg(s: Seq<char>)
    requires
        all_digits(s),
    ensures
        digits_val(s) >= 0,
    decreases s.len(),
{
    if s.len() > 0 {
        assert forall|i: int| 0 <= i < s.drop_last().len()
            implies is_digit(#[trigger] s.drop_last()[i]) by {
            assert(s.drop_last()[i] == s[i]);
        }
        lemma_digits_val_nonneg(s.drop_last());
        assert(is_digit(s.last()));
    }
}

/// A digit run that does not start with `0` has a positive value.
proof fn lemma_leading_nonzero_positive(s: Seq<char>)
    requires
        all_digits(s),
        s.len() >= 1,
        s[0] != '0',
    ensures
        digits_val(s) >= 1,
    decreases s.len(),
{
    if s.len() == 1 {
        assert(s.drop_last().len() == 0);
        assert(digits_val(s.drop_last()) == 0);
        assert(s.last() == s[0]);
        assert(digits_val(s) == digit_val(s[0]));
        assert(digit_val(s[0]) >= 1);
    } else {
        let front = s.drop_last();
        assert forall|i: int| 0 <= i < front.len()
            implies is_digit(#[trigger] front[i]) by {
            assert(front[i] == s[i]);
        }
        assert(front[0] == s[0]);
        lemma_leading_nonzero_positive(front);
        assert(digit_val(s.last()) >= 0);
    }
}

/// The value of a prefix of a digit run never exceeds the whole run's.
proof fn lemma_digits_val_prefix_le(s: Seq<char>, k: int)
    requires
        all_digits(s),
        0 <= k <= s.len(),
    ensures
        digits_val(s.subrange(0, k)) <= digits_val(s),
    decreases s.len(),
{
    if k == s.len() {
        assert(s.subrange(0, k) =~= s);
    } else {
        let front = s.drop_last();
        assert forall|i: int| 0 <= i < front.len()
            implies is_digit(#[trigger] front[i]) by {
            assert(front[i] == s[i]);
        }
        assert(s.subrange(0, k) =~= front.subrange(0, k));
        lemma_digits_val_prefix_le(front, k);
        lemma_digits_val_nonneg(front);
        assert(is_digit(s.last()));
        assert(digits_val(s) == digits_val(front) * 10 + digit_val(s.last()));
        assert(digits_val(front) * 10 >= digits_val(front));
    }
}

/// A canonical digit run (non-empty, digits only, no leading zero) is the
/// canonical notation of its own value.
pub proof fn lemma_canonical_digits(s: Seq<char>)
    requires
        all_digits(s),
        s.len() >= 1,
        s.len() == 1 || s[0] != '0',
    ensures
        digits_val(s) >= 0,
        dec_rep(digits_val(s) as nat) == s,
    decreases s.len(),
{
    lemma_digits_val_nonneg(s);
    if s.len() == 1 {
        assert(s.drop_last().len() == 0);
        assert(digits_val(s.drop_last()) == 0);
        assert(s.last() == s[0]);
        assert(digits_val(s) == digit_val(s[0]));
        lemma_char_roundtrip(s[0]);
        assert(dec_rep(digits_val(s) as nat) =~= s);
    } else {
        let front = s.drop_last();
        let d = digit_val(s.last());
        assert forall|i: int| 0 <= i < front.len()
            implies is_digit(#[trigger] front[i]) by {
            assert(front[i] == s[i]);
        }
        assert(front[0] == s[0]);
        lemma_canonical_digits(front);
        lemma_leading_nonzero_positive(front);
        let vf = digits_val(front);
        let v = digits_val(s);
        assert(v == vf * 10 + d);
        assert(0 <= d < 10);
        assert(v >= 10);
        lemma_fundamental_div_mod_converse(v, 10, vf, d);
        assert(v / 10 == vf && v % 10 == d);
        assert(dec_rep(v as nat) == dec_rep(vf as nat).push(digit_char(d)));
        lemma_char_roundtrip(s.last());
        assert(dec_rep(v as nat) =~= s);
    }
}

fn digit_to_str(d: usize) -> (r: &'static str)
    requires
        d < 10,
    ensures
        r@ == seq![digit_char(d as int)],
{
    let r: &'static str = match d {
        0 => "0",
        1 => "1",
        2 => "2",
        3 => "3",
        4 => "4",
        5 => "5",
        6 => "6",
        7 => "7",
        8 => "8",
        _ => "9",
    };
    proof {
        reveal_strlit("0");
        reveal_strlit("1");
        reveal_strlit("2");
        reveal_strlit("3");
        reveal_strlit("4");
        reveal_strlit("5");
        reveal_strlit("6");
        reveal_strlit("7");
        reveal_strlit("8");
        reveal_strlit("9");
        assert(r@ =~= seq![digit_char(d as int)]);
    }
    r
}

fn char_to_digit(c: char) -> (r: Option<usize>)
    ensures
        is_digit(c) ==> r == Some(digit_val(c) as usize),
        !is_digit(c) ==> r is None,
{
    match c {
        '0' => Some(0),
        '1' => Some(1),
        '2' => Some(2),
        '3' => Some(3),
        '4' => Some(4),
        '5' => Some(5),
        '6' => Some(6),
        '7' => Some(7),
        '8' => Some(8),
        '9' => Some(9),
        _ => None,
    }
}

/// Writes `n` in its canonical decimal notation.
pub fn encode_len(n: usize) -> (s: String)
    ensures
        s@ == dec_rep(n as nat),
    decreases n,
{
    if n < 10 {
        let s = String::from_str(digit_to_str(n));
        proof {
            assert(s@ =~= dec_rep(n as nat));
        }
        s
    } else {
        let mut s = encode_len(n / 10);
        s.append(digit_to_str(n % 10));
        proof {
            assert(s@ =~= dec_rep((n / 10) as nat).push(digit_char((n % 10) as int)));
            assert((n as nat) / 10 == (n / 10) as nat);
            assert((n as nat) % 10 == (n % 10) as nat);
        }
        s
    }
}

/// The canonical length marker of `m` — its decimal notation and a colon —
/// stands at position `start` of `s`.
pub open spec fn len_marker_at(s: Seq<char>, start: int, m: nat) -> bool {
    &&& 0 <= start
    &&& start + dec_rep(m).len() + 1 <= s.len()
    &&& s.subrange(start, start + dec_rep(m).len() as int) == dec_rep(m)
    &&& s[start + dec_rep(m).len() as int] == ':'
}

/// A digit scan that ran from `start` to a non-digit at `i` ends exactly
/// where a marker's digits end.
proof fn lemma_scan_at_marker_end(s: Seq<char>, start: int, m: nat, i: int)
    requires
        len_marker_at(s, start, m),
        start <= i < s.len(),
        all_digits(s.subrange(start, i)),
        !is_digit(s[i]),
    ensures
        i == start + dec_rep(m).len(),
{
    let ll = dec_rep(m).len() as int;
    lemma_dec_rep_props(m);
    if i < start + ll {
        assert(s.subrange(start, start + ll)[i - start] == dec_rep(m)[i - start]);
        assert(s[i] == dec_rep(m)[i - start]);
        assert(is_digit(dec_rep(m)[i - start]));
        assert(false);
    }
    if i > start + ll {
        assert(s.subrange(start, i)[start + ll - start] == s[start + ll]);
        assert(is_digit(s[start + ll]));
        assert(!is_digit(':'));
        assert(false);
    }
}

/// A digit scan that reads a digit at `i` is still strictly inside the
/// marker's digits.
proof fn lemma_scan_inside_marker(s: Seq<char>, start: int, m: nat, i: int)
    requires
        len_marker_at(s, start, m),
        start <= i < s.len(),
        all_digits(s.subrange(start, i)),
        is_digit(s[i]),
    ensures
        i < start + dec_rep(m).len(),
{
    let ll = dec_rep(m).len() as int;
    lemma_dec_rep_props(m);
    if i == start + ll {
        assert(!is_digit(':'));
        assert(false);
    }
    if i > start + ll {
        assert(s.subrange(start, i)[ll] == s[start + ll]);
        assert(is_digit(s[start + ll]));
        assert(false);
    }
}

/// When the digits scanned so far already outvalue the machine, no marker
/// with a machine-sized value stands at `start`.
proof fn lemma_no_marker_on_overflow(s: Seq<char>, start: int, i: int)
    requires
        0 <= start < i + 1,
        i < s.len(),
        all_digits(s.subrange(start, i + 1)),
        digits_val(s.subrange(start, i + 1)) > usize::MAX,
    ensures
        forall|m: nat| m <= usize::MAX ==> !(#[trigger] len_marker_at(s, start, m)),
{
    let ext = s.subrange(start, i + 1);
    assert forall|m: nat| m <= usize::MAX implies !len_marker_at(s, start, m) by {
        if len_marker_at(s, start, m) {
            assert forall|p: int| 0 <= p < i - start
                implies is_digit(#[trigger] s.subrange(start, i)[p]) by {
                assert(s.subrange(start, i)[p] == ext[p]);
            }
            assert(ext[i - start] == s[i]);
            assert(is_digit(s[i]));
            lemma_scan_inside_marker(s, start, m, i);
            lemma_dec_rep_props(m);
            let ll = dec_rep(m).len() as int;
            assert forall|p: int| 0 <= p < i + 1 - start
                implies ext[p] == dec_rep(m).subrange(0, i + 1 - start)[p] by {
                assert(s.subrange(start, start + ll)[p] == dec_rep(m)[p]);
                assert(ext[p] == s[start + p]);
            }
            assert(ext =~= dec_rep(m).subrange(0, i + 1 - start));
            lemma_digits_val_prefix_le(dec_rep(m), i + 1 - start);
            assert(digits_val(ext) <= m);
            assert(false);
        }
    }
}

/// One decimal accumulation step, total under the caller's bound.
fn mul10_add(a: usize, d: usize) -> (r: usize)
    requires
        a * 10 + d <= usize::MAX,
    ensures
        r == a * 10 + d,
{
    a * 10 + d
}

/// Reads a canonical length marker at `start`: the digits' value and the
/// position just past the colon. Returns nothing when no canonical marker
/// whose value fits the machine stands there.
fn parse_len(s: &str, start: usize, n: usize) -> (r: Option<(usize, usize)>)
    requires
        n == s@.len(),
        start <= n,
    ensures
        r matches Some(f) ==> {
            &&& start + 2 <= f.1 <= n
            &&& s@[f.1 - 1] == ':'
            &&& all_digits(s@.subrange(start as int, f.1 - 1))
            &&& f.1 - 1 - start >= 1
            &&& (f.1 - 1 - start == 1 || s@[start as int] != '0')
            &&& f.0 == digits_val(s@.subrange(start as int, f.1 - 1))
        },
        forall|m: nat| m <= usize::MAX && #[trigger] len_marker_at(s@, start as int, m)
            ==> (r matches Some(f) && f.0 == m && f.1 == start + dec_rep(m).len() + 1),
{
    if start >= n {
        proof {
            assert forall|m: nat| m <= usize::MAX && #[trigger] len_marker_at(s@, start as int, m)
                implies false by {
                lemma_dec_rep_props(m);
            }
        }
        return None;
    }
    let c0 = s.get_char(start);
    let d0 = char_to_digit(c0);
    let mut acc: usize;
    match d0 {
        None => {
            proof {
                assert forall|m: nat| m <= usize::MAX && #[trigger] len_marker_at(s@, start as int, m)
                    implies false by {
                    lemma_dec_rep_props(m);
                    let ll = dec_rep(m).len() as int;
                    assert(s@.subrange(start as int, start + ll)[0] == dec_rep(m)[0]);
                    assert(s@[start as int] == dec_rep(m)[0]);
                    assert(is_digit(dec_rep(m)[0]));
                }
            }
            return None;
        },
        Some(d) => {
            acc = d;
        },
    }
    proof {
        let run = s@.subrange(start as int, start + 1);
        assert(run =~= seq![s@[start as int]]);
        assert(run.drop_last() =~= Seq::<char>::empty());
        assert(digits_val(run.drop_last()) == 0);
        assert(digits_val(run) == digit_val(s@[start as int]));
    }
    let mut i: usize = start + 1;
    loop
        invariant
            n == s@.len(),
            start < i <= n,
            all_digits(s@.subrange(start as int, i as int)),
            acc == digits_val(s@.subrange(start as int, i as int)),
            s@[start as int] == '0' ==> i == start + 1,
        decreases n - i,
    {
        let ghost run = s@.subrange(start as int, i as int);
        if i >= n {
            proof {
                assert forall|m: nat| m <= usize::MAX && #[trigger] len_marker_at(s@, start as int, m)
                    implies false by {
                    lemma_dec_rep_props(m);
                    let ll = dec_rep(m).len() as int;
                    assert(start + ll < n);
                    assert(run[start + ll - start] == s@[start + ll]);
                    assert(is_digit(s@[start + ll]));
                    assert(!is_digit(':'));
                }
            }
            return None;
        }
        let c = s.get_char(i);
        if c == ':' {
            proof {
                assert(s@[i as int] == ':');
                assert(!is_digit(':'));
                if s@[start as int] != '0' {
                    lemma_leading_nonzero_positive(run);
                }
                assert(i - 1 - start >= 0);
                assert forall|m: nat| m <= usize::MAX
                    && #[trigger] len_marker_at(s@, start as int, m)
                    implies acc == m && i + 1 == start + dec_rep(m).len() + 1 by {
                    lemma_scan_at_marker_end(s@, start as int, m, i as int);
                    assert(run =~= s@.subrange(start as int,
                        start + dec_rep(m).len() as int));
                    lemma_dec_rep_props(m);
                    assert(digits_val(run) == m);
                }
            }
            return Some((acc, i + 1));
        }
        let dopt = char_to_digit(c);
        match dopt {
            None => {
                proof {
                    assert forall|m: nat| m <= usize::MAX
                        && #[trigger] len_marker_at(s@, start as int, m)
                        implies false by {
                        lemma_scan_at_marker_end(s@, start as int, m, i as int);
                        assert(s@[i as int] == ':');
                    }
                }
                return None;
            },
            Some(d) => {
                if acc == 0 {
                    proof {
                        if s@[start as int] != '0' {
                            lemma_leading_nonzero_positive(run);
                            assert(false);
                        }
                        assert(i == start + 1);
                        assert forall|m: nat| m <= usize::MAX
                            && #[trigger] len_marker_at(s@, start as int, m)
                            implies false by {
                            lemma_scan_inside_marker(s@, start as int, m, i as int);
                            lemma_dec_rep_props(m);
                            let ll = dec_rep(m).len() as int;
                            assert(ll > 1);
                            assert(s@.subrange(start as int, start + ll)[0]
                                == dec_rep(m)[0]);
                            assert(s@[start as int] == dec_rep(m)[0]);
                        }
                    }
                    return None;
                }
                let ghost ext = s@.subrange(start as int, i + 1);
                proof {
                    assert(ext =~= run.push(s@[i as int]));
                    assert(ext.drop_last() =~= run);
                    assert(ext.last() == s@[i as int]);
                    assert(digits_val(ext) == acc * 10 + d);
                    assert forall|p: int| 0 <= p < ext.len()
                        implies is_digit(#[trigger] ext[p]) by {
                        if p < run.len() {
                            assert(ext[p] == run[p]);
                        }
                    }
                }
                let limit = (usize::MAX - d) / 10;
                proof {
                    lemma_fundamental_div_mod((usize::MAX - d) as int, 10);
                }
                if acc > limit {
                    proof {
                        assert(10 * limit >= usize::MAX - d - 9);
                        assert(acc * 10 + d > usize::MAX);
                        assert(digits_val(ext) > usize::MAX);
                        lemma_no_marker_on_overflow(s@, start as int, i as int);
                    }
                    return None;
                }
                proof {
                    assert(10 * limit <= usize::MAX - d);
                    assert(limit * 10 == 10 * limit);
                    assert(acc <= limit);
                    assert(acc * 10 <= limit * 10);
                    assert(acc * 10 + d <= usize::MAX);
                    if s@[start as int] == '0' {
                        assert(i == start + 1);
                        assert(run =~= seq![s@[start as int]]);
                        assert(run.drop_last() =~= Seq::<char>::empty());
                        assert(digits_val(run.drop_last()) == 0);
                        assert(digits_val(run) == digit_val(s@[start as int]));
                        assert(acc == 0);
                        assert(false);
                    }
                }
                acc = mul10_add(acc, d);
                i = i + 1;
            },
        }
    }
}

/// A value carried on the wire: its canonical length marker, then the
/// value itself.
pub open spec fn len_prefixed(v: Seq<char>) -> Seq<char> {
    dec_rep(v.len()) + seq![':'] + v
}

/// The length-prefixed form of `v` stands at position `start` of `s`.
pub open spec fn field_at(s: Seq<char>, start: int, v: Seq<char>) -> bool {
    &&& 0 <= start
    &&& start + len_prefixed(v).len() <= s.len()
    &&& s.subrange(start, start + len_prefixed(v).len() as int) == len_prefixed(v)
}

/// A field at `start` puts its own length marker at `start`.
proof fn lemma_field_gives_marker(s: Seq<char>, start: int, v: Seq<char>)
    requires
        field_at(s, start, v),
    ensures
        len_marker_at(s, start, v.len()),
        v.len() + 1 <= s.len(),
{
    let lp = len_prefixed(v);
    let ll = dec_rep(v.len()).len() as int;
    lemma_dec_rep_props(v.len());
    assert forall|p: int| 0 <= p < ll
        implies s.subrange(start, start + ll)[p] == dec_rep(v.len())[p] by {
        assert(s.subrange(start, start + lp.len() as int)[p] == lp[p]);
        assert(lp[p] == dec_rep(v.len())[p]);
        assert(s.subrange(start, start + ll)[p] == s[start + p]);
        assert(s[start + p] == lp[p]);
    }
    assert(s.subrange(start, start + ll) =~= dec_rep(v.len()));
    assert(s.subrange(start, start + lp.len() as int)[ll] == lp[ll]);
    assert(lp[ll] == ':');
    assert(s[start + ll] == ':');
}

/// Copies `len` characters of `s` starting at `pos`, when they are there.
fn take_field(s: &str, pos: usize, len: usize, n: usize) -> (r: Option<(String, usize)>)
    requires
        n == s@.len(),
        pos <= n,
    ensures
        r matches Some(f) ==> pos + len <= n
            && f.0@ == s@.subrange(pos as int, pos + len)
            && f.1 == pos + len,
        pos + len <= n ==> r is Some,
{
    if len <= n && pos <= n - len {
        let e = pos + len;
        let sub = s.substring_char(pos, e);
        Some((sub.to_owned(), e))
    } else {
        None
    }
}

/// Reads one length-prefixed field at `start`: the value and the position
/// just past it. Succeeds exactly when a well-formed field stands there.
fn parse_field(s: &str, start: usize, n: usize) -> (r: Option<(String, usize)>)
    requires
        n == s@.len(),
        start <= n,
    ensures
        r matches Some(f) ==> start < f.1 <= n
            && field_at(s@, start as int, f.0@)
            && f.1 == start + len_prefixed(f.0@).len(),
        forall|v: Seq<char>| #[trigger] field_at(s@, start as int, v)
            ==> (r matches Some(f) && f.0@ == v && f.1 == start + len_prefixed(v).len()),
{
    match parse_len(s, start, n) {
        None => {
            proof {
                assert forall|v: Seq<char>| #[trigger] field_at(s@, start as int, v)
                    implies false by {
                    lemma_field_gives_marker(s@, start as int, v);
                    assert(v.len() <= usize::MAX);
                    assert(len_marker_at(s@, start as int, v.len()));
                }
            }
            None
        },
        Some((v1, p1)) => {
            proof {
                let digits = s@.subrange(start as int, p1 - 1);
                lemma_canonical_digits(digits);
            }
            match take_field(s, p1, v1, n) {
                None => {
                    proof {
                        assert forall|v: Seq<char>| #[trigger] field_at(s@, start as int, v)
                            implies false by {
                            lemma_field_gives_marker(s@, start as int, v);
                            lemma_dec_rep_props(v.len());
                            assert(v1 == v.len());
                            assert(p1 == start + dec_rep(v.len()).len() + 1);
                            assert(p1 + v1 <= n);
                        }
                    }
                    None
                },
                Some((content, p2)) => {
                    proof {
                        let digits = s@.subrange(start as int, p1 - 1);
                        let ll = p1 - 1 - start;
                        assert(dec_rep(v1 as nat) == digits);
                        assert(content@ == s@.subrange(p1 as int, p1 + v1));
                        assert(content@.len() == v1);
                        let lp = len_prefixed(content@);
                        assert(lp.len() == ll + 1 + v1);
                        assert forall|p: int| 0 <= p < lp.len()
                            implies s@.subrange(start as int, start + lp.len() as int)[p]
                                == lp[p] by {
                            assert(s@.subrange(start as int, start + lp.len() as int)[p]
                                == s@[start + p]);
                            if p < ll {
                                assert(lp[p] == dec_rep(v1 as nat)[p]);
                                assert(digits[p] == s@[start + p]);
                            } else if p == ll {
                                assert(lp[p] == ':');
                                assert(s@[p1 - 1] == ':');
                            } else {
                                assert(lp[p] == content@[p - ll - 1]);
                                assert(content@[p - ll - 1] == s@[p1 + (p - ll - 1)]);
                            }
                        }
                        assert(s@.subrange(start as int, start + lp.len() as int) =~= lp);
                        assert(field_at(s@, start as int, content@));
                        assert(p2 == start + lp.len());
                        assert forall|v: Seq<char>| #[trigger] field_at(s@, start as int, v)
                            implies content@ == v && p2 == start + len_prefixed(v).len() by {
                            lemma_field_gives_marker(s@, start as int, v);
                            lemma_dec_rep_props(v.len());
                            assert(v1 == v.len());
                            assert(p1 == start + dec_rep(v.len()).len() + 1);
                            let lpv = len_prefixed(v);
                            assert forall|p: int| 0 <= p < v.len()
                                implies content@[p] == v[p] by {
                                assert(s@.subrange(start as int,
                                    start + lpv.len() as int)[ll + 1 + p] == lpv[ll + 1 + p]);
                                assert(lpv[ll + 1 + p] == v[p]);
                                assert(s@[start + ll + 1 + p] == v[p]);
                                assert(content@[p] == s@[p1 + p]);
                            }
                            assert(content@ =~= v);
                        }
                    }
                    Some((content, p2))
                },
            }
        },
    }
}

/// One inbound client message: join a room, or say something into a room.
pub enum ClientCommand {
    Join(String),
    Say(String, String),
}

/// The join message: tag `J`, then the room, length-prefixed.
pub open spec fn join_rep(room: Seq<char>) -> Seq<char> {
    seq!['J'] + len_prefixed(room)
}

/// The payload message: tag `M`, the room length-prefixed, then the text.
pub open spec fn say_rep(room: Seq<char>, text: Seq<char>) -> Seq<char> {
    seq!['M'] + len_prefixed(room) + text
}

pub fn encode_join(room: &String) -> (r: String)
    ensures
        r@ == join_rep(room@),
{
    let mut out = String::from_str("J");
    append_field(&mut out, room);
    proof {
        reveal_strlit("J");
        assert(out@ =~= join_rep(room@));
    }
    out
}

pub fn encode_say(room: &String, text: &String) -> (r: String)
    ensures
        r@ == say_rep(room@, text@),
{
    let mut out = String::from_str("M");
    append_field(&mut out, room);
    out.append(text.as_str());
    proof {
        reveal_strlit("M");
        assert(out@ =~= say_rep(room@, text@));
    }
    out
}

/// Reads an inbound client message. Succeeds exactly on the two message
/// forms, inverting their encoders; anything else is malformed and ends
/// the ingest loop.
pub fn decode_client(s: &str) -> (r: Option<ClientCommand>)
    ensures
        r matches Some(c) ==> match c {
            ClientCommand::Join(rm) => s@ == join_rep(rm@),
            ClientCommand::Say(rm, tx) => s@ == say_rep(rm@, tx@),
        },
        forall|rm: Seq<char>| s@ == #[trigger] join_rep(rm)
            ==> (r matches Some(c) && c matches ClientCommand::Join(rm2) && rm2@ == rm),
        forall|rm: Seq<char>, tx: Seq<char>| s@ == #[trigger] say_rep(rm, tx)
            ==> (r matches Some(c) && c matches ClientCommand::Say(rm2, tx2)
                && rm2@ == rm && tx2@ == tx),
{
    let n = s.unicode_len();
    if n == 0 {
        proof {
            lemma_client_shapes();
        }
        return None;
    }
    let tag = s.get_char(0);
    if tag == 'J' {
        match parse_field(s, 1, n) {
            Some((rm, q)) => {
                if q == n {
                    proof {
                        assert forall|p: int| 0 <= p < n
                            implies s@[p] == join_rep(rm@)[p] by {
                            if p >= 1 {
                                assert(s@.subrange(1,
                                    1 + len_prefixed(rm@).len() as int)[p - 1]
                                    == len_prefixed(rm@)[p - 1]);
                            }
                        }
                        assert(s@ =~= join_rep(rm@));
                        lemma_client_unique(s@, rm@);
                    }
                    Some(ClientCommand::Join(rm))
                } else {
                    proof {
                        assert forall|rm0: Seq<char>| s@ == #[trigger] join_rep(rm0)
                            implies false by {
                            lemma_join_shape(s@, rm0);
                            assert(rm0 == rm@);
                        }
                        lemma_client_shapes();
                    }
                    None
                }
            },
            None => {
                proof {
                    assert forall|rm0: Seq<char>| s@ == #[trigger] join_rep(rm0)
                        implies false by {
                        lemma_join_shape(s@, rm0);
                    }
                    lemma_client_shapes();
                }
                None
            },
        }
    } else if tag == 'M' {
        match parse_field(s, 1, n) {
            Some((rm, q)) => {
                let tx = s.substring_char(q, n).to_owned();
                proof {
                    assert forall|p: int| 0 <= p < n
                        implies s@[p] == say_rep(rm@, tx@)[p] by {
                        if 1 <= p < q {
                            assert(s@.subrange(1,
                                1 + len_prefixed(rm@).len() as int)[p - 1]
                                == len_prefixed(rm@)[p - 1]);
                        }
                        if p >= q {
                            assert(tx@[p - q] == s@[p]);
                        }
                    }
                    assert(s@ =~= say_rep(rm@, tx@));
                    assert forall|rm0: Seq<char>, tx0: Seq<char>|
                        s@ == #[trigger] say_rep(rm0, tx0)
                        implies rm0 == rm@ && tx0 == tx@ by {
                        lemma_say_shape(s@, rm0, tx0);
                        assert(rm0 == rm@);
                        assert forall|p: int| 0 <= p < tx0.len()
                            implies tx0[p] == tx@[p] by {
                            assert(say_rep(rm0, tx0)[q + p] == tx0[p]);
                        }
                        assert(tx0 =~= tx@);
                    }
                    lemma_client_shapes();
                }
                Some(ClientCommand::Say(rm, tx))
            },
            None => {
                proof {
                    assert forall|rm0: Seq<char>, tx0: Seq<char>|
                        s@ == #[trigger] say_rep(rm0, tx0) implies false by {
                        lemma_say_shape(s@, rm0, tx0);
                    }
                    lemma_client_shapes();
                }
                None
            },
        }
    } else {
        proof {
            lemma_client_shapes();
        }
        None
    }
}

/// The two client message forms carry their tags at the front and are
/// never empty.
proof fn lemma_client_shapes()
    ensures
        forall|rm: Seq<char>| (#[trigger] join_rep(rm)).len() >= 1 && join_rep(rm)[0] == 'J',
        forall|rm: Seq<char>, tx: Seq<char>|
            (#[trigger] say_rep(rm, tx)).len() >= 1 && say_rep(rm, tx)[0] == 'M',
{
    assert forall|rm: Seq<char>|
        (#[trigger] join_rep(rm)).len() >= 1 && join_rep(rm)[0] == 'J' by {
        lemma_dec_rep_props(rm.len());
    }
    assert forall|rm: Seq<char>, tx: Seq<char>|
        (#[trigger] say_rep(rm, tx)).len() >= 1 && say_rep(rm, tx)[0] == 'M' by {
        lemma_dec_rep_props(rm.len());
    }
}

/// A join message holds its room as a field right after the tag, and
/// nothing after it.
proof fn lemma_join_shape(s: Seq<char>, rm: Seq<char>)
    requires
        s == join_rep(rm),
    ensures
        field_at(s, 1, rm),
        s.len() == 1 + len_prefixed(rm).len(),
{
    let b = len_prefixed(rm);
    assert forall|p: int| 0 <= p < b.len()
        implies s.subrange(1, 1 + b.len() as int)[p] == b[p] by {
        assert(s[1 + p] == b[p]);
    }
    assert(s.subrange(1, 1 + b.len() as int) =~= b);
}

/// A payload message holds its room as a field right after the tag; the
/// text is the rest.
proof fn lemma_say_shape(s: Seq<char>, rm: Seq<char>, tx: Seq<char>)
    requires
        s == say_rep(rm, tx),
    ensures
        field_at(s, 1, rm),
{
    let b = len_prefixed(rm);
    assert forall|p: int| 0 <= p < b.len()
        implies s.subrange(1, 1 + b.len() as int)[p] == b[p] by {
        assert(s[1 + p] == b[p]);
    }
    assert(s.subrange(1, 1 + b.len() as int) =~= b);
}

/// A join message is no payload message and the other way round; and each
/// form encodes one value only.
proof fn lemma_client_unique(s: Seq<char>, rm: Seq<char>)
    requires
        s == join_rep(rm),
    ensures
        forall|rm0: Seq<char>| s == #[trigger] join_rep(rm0) ==> rm0 == rm,
        forall|rm0: Seq<char>, tx0: Seq<char>| s != #[trigger] say_rep(rm0, tx0),
{
    lemma_client_shapes();
    assert forall|rm0: Seq<char>| s == #[trigger] join_rep(rm0) implies rm0 == rm by {
        lemma_join_shape(s, rm0);
        lemma_join_shape(join_rep(rm), rm);
        lemma_field_unique(s, 1, rm0, rm);
    }
    assert forall|rm0: Seq<char>, tx0: Seq<char>|
        s != #[trigger] say_rep(rm0, tx0) by {
        if s == say_rep(rm0, tx0) {
            assert(s[0] == 'M' && s[0] == 'J');
        }
    }
}

/// At one position of one sequence, only one field can stand.
proof fn lemma_field_unique(s: Seq<char>, start: int, v1: Seq<char>, v2: Seq<char>)
    requires
        field_at(s, start, v1),
        field_at(s, start, v2),
    ensures
        v1 == v2,
{
    lemma_field_gives_marker(s, start, v1);
    lemma_field_gives_marker(s, start, v2);
    lemma_dec_rep_props(v1.len());
    lemma_dec_rep_props(v2.len());
    let l1 = dec_rep(v1.len()).len() as int;
    let l2 = dec_rep(v2.len()).len() as int;
    if l1 < l2 {
        assert(s.subrange(start, start + l2)[l1] == dec_rep(v2.len())[l1]);
        assert(s[start + l1] == dec_rep(v2.len())[l1]);
        assert(is_digit(dec_rep(v2.len())[l1]));
        assert(s[start + l1] == ':');
        assert(false);
    }
    if l2 < l1 {
        assert(s.subrange(start, start + l1)[l2] == dec_rep(v1.len())[l2]);
        assert(s[start + l2] == dec_rep(v1.len())[l2]);
        assert(is_digit(dec_rep(v1.len())[l2]));
        assert(s[start + l2] == ':');
        assert(false);
    }
    assert(s.subrange(start, start + l1) =~= dec_rep(v1.len()));
    assert(s.subrange(start, start + l2) =~= dec_rep(v2.len()));
    assert(dec_rep(v1.len()) == dec_rep(v2.len()));
    assert(v1.len() == v2.len()) by {
        assert(digits_val(dec_rep(v1.len())) == v1.len());
        assert(digits_val(dec_rep(v2.len())) == v2.len());
    }
    assert forall|p: int| 0 <= p < v1.len() implies v1[p] == v2[p] by {
        assert(s.subrange(start, start + len_prefixed(v1).len() as int)[l1 + 1 + p]
            == len_prefixed(v1)[l1 + 1 + p]);
        assert(s.subrange(start, start + len_prefixed(v2).len() as int)[l2 + 1 + p]
            == len_prefixed(v2)[l2 + 1 + p]);
        assert(len_prefixed(v1)[l1 + 1 + p] == v1[p]);
        assert(len_prefixed(v2)[l2 + 1 + p] == v2[p]);
    }
    assert(v1 =~= v2);
}

/// The bridge's loop suppression: a frame read back from the external bus
/// is applied locally exactly when some other instance published it.
pub fn accept_external(self_instance: &String, frame_instance: &String) -> (b: bool)
    ensures
        b == (frame_instance@ != self_instance@),
{
    !(*frame_instance == *self_instance)
}

/// Any split of a sequence into four adjacent segments reassembles to it.
proof fn lemma_four_segments(s: Seq<char>, a: int, b: int, c: int)
    requires
        0 <= a <= b <= c <= s.len(),
    ensures
        s == s.subrange(0, a) + s.subrange(a, b) + s.subrange(b, c)
            + s.subrange(c, s.len() as int),
{
    let t = s.subrange(0, a) + s.subrange(a, b) + s.subrange(b, c)
        + s.subrange(c, s.len() as int);
    assert forall|p: int| 0 <= p < s.len() implies t[p] == s[p] by {
    }
    assert(t =~= s);
}

/// Appends the length-prefixed form of `v`.
fn append_field(out: &mut String, v: &String)
    ensures
        final(out)@ == old(out)@ + len_prefixed(v@),
{
    let l = encode_len(v.as_str().unicode_len());
    out.append(l.as_str());
    out.append(":");
    out.append(v.as_str());
    proof {
        reveal_strlit(":");
        assert(":"@ =~= seq![':']);
        assert(final(out)@ =~= old(out)@ + len_prefixed(v@));
    }
}

/// One frame on the external bus: the publishing instance, the target
/// room, the origin identity — each length-prefixed — then the payload
/// text to the end.
pub open spec fn frame_rep(inst: Seq<char>, e: crate::EnvelopeView) -> Seq<char> {
    len_prefixed(inst) + len_prefixed(e.room) + len_prefixed(e.from) + e.text
}

/// Writes the frame the bridge publishes for `env` on behalf of
/// `instance`.
pub fn encode_frame(instance: &String, env: &crate::Envelope) -> (r: String)
    ensures
        r@ == frame_rep(instance@, env@),
{
    let mut out = String::new();
    append_field(&mut out, instance);
    append_field(&mut out, &env.room);
    append_field(&mut out, &env.from);
    out.append(env.text.as_str());
    proof {
        assert(out@ =~= frame_rep(instance@, env@));
    }
    out
}

/// Reads a bridge frame back: the publishing instance and the envelope.
/// Succeeds exactly on the encodings, and inverts [`encode_frame`].
pub fn decode_frame(s: &str) -> (r: Option<(String, crate::Envelope)>)
    ensures
        r matches Some(p) ==> s@ == frame_rep(p.0@, p.1@),
        forall|inst: Seq<char>, ev: crate::EnvelopeView|
            s@ == #[trigger] frame_rep(inst, ev)
            ==> (r matches Some(p) && p.0@ == inst && p.1@ == ev),
{
    let n = s.unicode_len();
    let r1 = parse_field(s, 0, n);
    match r1 {
        None => {
            proof {
                assert forall|inst: Seq<char>, ev: crate::EnvelopeView|
                    s@ == #[trigger] frame_rep(inst, ev) implies false by {
                    lemma_frame_first_field(s@, inst, ev);
                }
            }
            None
        },
        Some((inst, q1)) => {
            let r2 = parse_field(s, q1, n);
            match r2 {
                None => {
                    proof {
                        assert forall|i0: Seq<char>, ev: crate::EnvelopeView|
                            s@ == #[trigger] frame_rep(i0, ev) implies false by {
                            lemma_frame_first_field(s@, i0, ev);
                            assert(inst@ == i0);
                            lemma_frame_second_field(s@, i0, ev);
                        }
                    }
                    None
                },
                Some((room, q2)) => {
                    let r3 = parse_field(s, q2, n);
                    match r3 {
                        None => {
                            proof {
                                assert forall|i0: Seq<char>, ev: crate::EnvelopeView|
                                    s@ == #[trigger] frame_rep(i0, ev) implies false by {
                                    lemma_frame_first_field(s@, i0, ev);
                                    lemma_frame_second_field(s@, i0, ev);
                                    lemma_frame_third_field(s@, i0, ev);
                                }
                            }
                            None
                        },
                        Some((from, q3)) => {
                            let text = s.substring_char(q3, n).to_owned();
                            let env = crate::Envelope::new(from, room, text);
                            proof {
                                lemma_four_segments(s@, q1 as int, q2 as int, q3 as int);
                                assert(s@.subrange(0, q1 as int) == len_prefixed(inst@));
                                assert(s@.subrange(q1 as int, q2 as int)
                                    =~= len_prefixed(env@.room));
                                assert(s@.subrange(q2 as int, q3 as int)
                                    =~= len_prefixed(env@.from));
                                assert(s@ == frame_rep(inst@, env@));
                                assert forall|i0: Seq<char>, ev: crate::EnvelopeView|
                                    s@ == #[trigger] frame_rep(i0, ev)
                                    implies inst@ == i0 && env@ == ev by {
                                    lemma_frame_first_field(s@, i0, ev);
                                    lemma_frame_second_field(s@, i0, ev);
                                    lemma_frame_third_field(s@, i0, ev);
                                    assert(env@.text =~= ev.text);
                                }
                            }
                            Some((inst, env))
                        },
                    }
                },
            }
        },
    }
}

/// In a frame, the instance field stands at the front.
proof fn lemma_frame_first_field(s: Seq<char>, inst: Seq<char>, ev: crate::EnvelopeView)
    requires
        s == frame_rep(inst, ev),
    ensures
        field_at(s, 0, inst),
{
    let a = len_prefixed(inst);
    assert forall|p: int| 0 <= p < a.len()
        implies s.subrange(0, a.len() as int)[p] == a[p] by {
        assert(s[p] == a[p]);
    }
    assert(s.subrange(0, a.len() as int) =~= a);
}

/// In a frame, the room field follows the instance field.
proof fn lemma_frame_second_field(s: Seq<char>, inst: Seq<char>, ev: crate::EnvelopeView)
    requires
        s == frame_rep(inst, ev),
    ensures
        field_at(s, len_prefixed(inst).len() as int, ev.room),
{
    let a = len_prefixed(inst);
    let b = len_prefixed(ev.room);
    let q = a.len() as int;
    assert forall|p: int| 0 <= p < b.len()
        implies s.subrange(q, q + b.len() as int)[p] == b[p] by {
        assert(s[q + p] == b[p]);
    }
    assert(s.subrange(q, q + b.len() as int) =~= b);
}

/// In a frame, the origin field follows the room field; the text is the
/// rest.
proof fn lemma_frame_third_field(s: Seq<char>, inst: Seq<char>, ev: crate::EnvelopeView)
    requires
        s == frame_rep(inst, ev),
    ensures
        field_at(s, len_prefixed(inst).len() + len_prefixed(ev.room).len() as int, ev.from),
        s.subrange(
            len_prefixed(inst).len() + len_prefixed(ev.room).len()
                + len_prefixed(ev.from).len() as int,
            s.len() as int,
        ) == ev.text,
{
    let a = len_prefixed(inst);
    let b = len_prefixed(ev.room);
    let c = len_prefixed(ev.from);
    let q = a.len() + b.len() as int;
    assert forall|p: int| 0 <= p < c.len()
        implies s.subrange(q, q + c.len() as int)[p] == c[p] by {
        assert(s[q + p] == c[p]);
    }
    assert(s.subrange(q, q + c.len() as int) =~= c);
    assert forall|p: int| 0 <= p < ev.text.len()
        implies s.subrange(q + c.len() as int, s.len() as int)[p] == ev.text[p] by {
        assert(s[q + c.len() + p] == ev.text[p]);
    }
    assert(s.subrange(q + c.len() as int, s.len() as int) =~= ev.text);
}

} // verus!
