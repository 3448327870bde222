//! Text utilities shared by the FEN codec and the move parser: splitting on a
//! separator, decimal numbers, and the bridge between `&str` and `Vec<char>`.

use vstd::prelude::*;
use vstd::string::StrSliceExecFns;

verus! {

/// Whether `c` occurs in `s`.
pub open spec fn has_char(s: Seq<char>, c: char) -> bool {
    exists|i: int| 0 <= i < s.len() && s[i] == c
}

/// `s` split on `sep`. Every separator ends a piece, so the result holds one
/// piece more than `s` holds separators; an empty input gives one empty piece.
pub open spec fn split_char(s: Seq<char>, sep: char) -> Seq<Seq<char>>
    decreases s.len(),
{
    if s.len() == 0 {
        seq![Seq::<char>::empty()]
    } else if s[0] == sep {
        seq![Seq::<char>::empty()] + split_char(s.skip(1), sep)
    } else {
        let r = split_char(s.skip(1), sep);
        seq![seq![s[0]] + r[0]] + r.skip(1)
    }
}

/// A split is never empty.
pub proof fn lemma_split_len(s: Seq<char>, sep: char)
    ensures
        split_char(s, sep).len() >= 1,
    decreases s.len(),
{
    if s.len() != 0 && s[0] != sep {
        lemma_split_len(s.skip(1), sep);
    }
}

/// A sequence without the separator splits into itself alone.
pub proof fn lemma_split_no_sep(s: Seq<char>, sep: char)
    requires
        !has_char(s, sep),
    ensures
        split_char(s, sep) == seq![s],
    decreases s.len(),
{
    if s.len() == 0 {
        assert(s =~= Seq::<char>::empty());
    } else {
        assert(s[0] != sep);
        assert(!has_char(s.skip(1), sep)) by {
            assert(forall|i: int| 0 <= i < s.skip(1).len() ==> s.skip(1)[i] == s[i + 1]);
        }
        lemma_split_no_sep(s.skip(1), sep);
        let r = split_char(s.skip(1), sep);
        assert(r == seq![s.skip(1)]);
        assert(seq![s[0]] + r[0] =~= s);
        assert(r.skip(1) =~= Seq::<Seq<char>>::empty());
        assert(seq![seq![s[0]] + r[0]] + r.skip(1) =~= seq![s]);
    }
}

/// Splitting a sequence that starts with a separator-free piece, then the
/// separator, peels off exactly that piece.
pub proof fn lemma_split_sep(a: Seq<char>, b: Seq<char>, sep: char)
    requires
        !has_char(a, sep),
    ensures
        split_char(a + seq![sep] + b, sep) == seq![a] + split_char(b, sep),
    decreases a.len(),
{
    let s = a + seq![sep] + b;
    if a.len() == 0 {
        assert(s[0] == sep);
        assert(s.skip(1) =~= b);
        assert(a =~= Seq::<char>::empty());
        assert(seq![Seq::<char>::empty()] + split_char(b, sep) =~= seq![a] + split_char(b, sep));
    } else {
        assert(s[0] == a[0]);
        assert(a[0] != sep);
        assert(!has_char(a.skip(1), sep)) by {
            assert(forall|i: int| 0 <= i < a.skip(1).len() ==> a.skip(1)[i] == a[i + 1]);
        }
        lemma_split_sep(a.skip(1), b, sep);
        assert(s.skip(1) =~= a.skip(1) + seq![sep] + b);
        let r = split_char(s.skip(1), sep);
        assert(r == seq![a.skip(1)] + split_char(b, sep));
        assert(r[0] == a.skip(1));
        assert(seq![s[0]] + r[0] =~= a);
        assert(r.skip(1) =~= split_char(b, sep));
        assert(seq![seq![s[0]] + r[0]] + r.skip(1) =~= seq![a] + split_char(b, sep));
    }
}

/// The characters of `s`, one by one.
pub fn str_to_chars(s: &str) -> (r: Vec<char>)
    ensures
        r@ == s@,
{
    let n = s.unicode_len();
    let mut r: Vec<char> = Vec::new();
    let mut i: usize = 0;
    while i < n
        invariant
            n == s@.len(),
            i <= n,
            r@ =~= s@.take(i as int),
        decreases n - i,
    {
        let c = s.get_char(i);
        r.push(c);
        i = i + 1;
        assert(r@ =~= s@.take(i as int));
    }
    assert(s@.take(n as int) =~= s@);
    r
}

/// Relies on `String`'s `FromIterator<char>`: collecting an iterator of
/// characters yields the string of exactly those characters in order.
#[verifier::external_body]
pub fn chars_to_string(v: &Vec<char>) -> (r: String)
    ensures
        r@ == v@,
{
    v.iter().collect()
}

/// The pieces of `s` between occurrences of `sep`, as `split_char` describes.
pub fn split_vec(s: &Vec<char>, sep: char) -> (r: Vec<Vec<char>>)
    ensures
        r@.len() == split_char(s@, sep).len(),
        forall|i: int| #![auto] 0 <= i < r@.len() ==> r@[i]@ == split_char(s@, sep)[i],
{
    let ghost whole = split_char(s@, sep);
    let n = s.len();
    let mut r: Vec<Vec<char>> = Vec::new();
    let mut start: usize = 0;
    let mut j: usize = 0;
    proof {
        assert(r@.map_values(|p: Vec<char>| p@) =~= Seq::<Seq<char>>::empty());
        assert(s@.skip(0) =~= s@);
        assert(s@.subrange(0, 0) =~= Seq::<char>::empty());
    }
    loop
        invariant_except_break
            start <= j <= n,
            n == s@.len(),
            whole == split_char(s@, sep),
            whole =~= r@.map_values(|p: Vec<char>| p@) + split_char(s@.skip(start as int), sep),
            !has_char(s@.subrange(start as int, j as int), sep),
        ensures
            whole =~= r@.map_values(|p: Vec<char>| p@),
        decreases n - j,
    {
        if j == n {
            let piece = vec_subrange(s, start, j);
            let ghost prev = r@.map_values(|p: Vec<char>| p@);
            proof {
                assert(s@.skip(start as int) =~= s@.subrange(start as int, j as int));
                lemma_split_no_sep(s@.skip(start as int), sep);
            }
            r.push(piece);
            proof {
                assert(r@.map_values(|p: Vec<char>| p@) =~= prev.push(piece@));
                assert(prev.push(piece@) =~= prev + seq![piece@]);
                assert(whole =~= r@.map_values(|p: Vec<char>| p@));
            }
            break;
        }
        let c = s[j];
        if c == sep {
            let piece = vec_subrange(s, start, j);
            let ghost prev = r@.map_values(|p: Vec<char>| p@);
            let ghost pre = s@.subrange(start as int, j as int);
            let ghost post = s@.skip(j as int + 1);
            proof {
                assert(s@.skip(start as int) =~= pre + seq![sep] + post);
                lemma_split_sep(pre, post, sep);
            }
            r.push(piece);
            start = j + 1;
            j = j + 1;
            proof {
                assert(r@.map_values(|p: Vec<char>| p@) =~= prev.push(piece@));
                assert(prev.push(piece@) =~= prev + seq![piece@]);
                assert(s@.subrange(start as int, j as int) =~= Seq::<char>::empty());
                assert(whole =~= r@.map_values(|p: Vec<char>| p@) + split_char(
                    s@.skip(start as int),
                    sep,
                ));
            }
        } else {
            j = j + 1;
            proof {
                let sub = s@.subrange(start as int, j as int);
                assert(forall|i: int| 0 <= i < sub.len() - 1 ==> sub[i] == s@.subrange(
                    start as int,
                    j as int - 1,
                )[i]);
                assert(sub[sub.len() - 1] == c);
                assert(!has_char(sub, sep));
            }
        }
    }
    r
}

/// The characters of `s` from `from` (inclusive) to `to` (exclusive).
pub fn vec_subrange(s: &Vec<char>, from: usize, to: usize) -> (r: Vec<char>)
    requires
        from <= to <= s@.len(),
    ensures
        r@ == s@.subrange(from as int, to as int),
{
    let mut r: Vec<char> = Vec::new();
    let mut i: usize = from;
    while i < to
        invariant
            from <= i <= to <= s@.len(),
            r@ =~= s@.subrange(from as int, i as int),
        decreases to - i,
    {
        r.push(s[i]);
        i = i + 1;
        assert(r@ =~= s@.subrange(from as int, i as int));
    }
    r
}

/// Whether `c` is an ASCII decimal digit.
pub open spec fn is_digit(c: char) -> bool {
    c == '0' || c == '1' || c == '2' || c == '3' || c == '4' || c == '5' || c == '6' || c == '7'
        || c == '8' || c == '9'
}

/// The value of a decimal digit.
pub open spec fn digit_val(c: char) -> int {
    if c == '0' { 0 }
    else if c == '1' { 1 }
    else if c == '2' { 2 }
    else if c == '3' { 3 }
    else if c == '4' { 4 }
    else if c == '5' { 5 }
    else if c == '6' { 6 }
    else if c == '7' { 7 }
    else if c == '8' { 8 }
    else { 9 }
}

/// The digit for a value below ten.
pub open spec fn digit_char(d: int) -> char {
    if d == 0 { '0' }
    else if d == 1 { '1' }
    else if d == 2 { '2' }
    else if d == 3 { '3' }
    else if d == 4 { '4' }
    else if d == 5 { '5' }
    else if d == 6 { '6' }
    else if d == 7 { '7' }
    else if d == 8 { '8' }
    else { '9' }
}

/// Whether every character of `s` is a decimal digit.
pub open spec fn all_digits(s: Seq<char>) -> bool {
    forall|i: int| 0 <= i < s.len() ==> is_digit(#[trigger] s[i])
}

/// The value of a digit string, most significant digit first.
pub open spec fn dec_val(s: Seq<char>) -> int
    decreases s.len(),
{
    if s.len() == 0 {
        0
    } else {
        dec_val(s.drop_last()) * 10 + digit_val(s.last())
    }
}

/// The decimal rendering of `n`, without sign or leading zeros.
pub open spec fn dec_str(n: int) -> Seq<char>
    decreases n,
{
    if n < 10 {
        seq![digit_char(n)]
    } else {
        dec_str(n / 10).push(digit_char(n % 10))
    }
}

/// What parsing an unsigned decimal number accepts: an optional leading `+`,
/// then at least one digit, with a value that fits in `usize`.
pub open spec fn parse_usize_spec(s: Seq<char>) -> Option<nat> {
    let t = if s.len() > 0 && s[0] == '+' { s.skip(1) } else { s };
    if t.len() == 0 || !all_digits(t) || dec_val(t) > usize::MAX {
        None
    } else {
        Some(dec_val(t) as nat)
    }
}

/// The digit's value, when `c` is a digit.
pub fn digit_of(c: char) -> (r: Option<u8>)
    ensures
        r is Some <==> is_digit(c),
        r is Some ==> r->0 == digit_val(c),
{
    match c {
        '0' => Some(0),
        '1' => Some(1),
        '2' => Some(2),
        '3' => Some(3),
        '4' => Some(4),
        '5' => Some(5),
        '6' => Some(6),
        '7' => Some(7),
        '8' => Some(8),
        '9' => Some(9),
        _ => None,
    }
}

/// The digit for a value below ten.
pub fn char_of_digit(d: usize) -> (r: char)
    requires
        d < 10,
    ensures
        r == digit_char(d as int),
{
    match d {
        0 => '0',
        1 => '1',
        2 => '2',
        3 => '3',
        4 => '4',
        5 => '5',
        6 => '6',
        7 => '7',
        8 => '8',
        _ => '9',
    }
}

/// Parses an unsigned decimal number as `str::parse::<usize>` accepts it.
pub fn parse_usize_chars(s: &Vec<char>) -> (r: Option<usize>)
    ensures
        r is Some <==> parse_usize_spec(s@) is Some,
        r is Some ==> r->0 as nat == parse_usize_spec(s@)->0,
{
    let mut i: usize = 0;
    if s.len() > 0 && s[0] == '+' {
        i = 1;
    }
    let ghost t = if s@.len() > 0 && s@[0] == '+' { s@.skip(1) } else { s@ };
    assert(t =~= s@.subrange(i as int, s@.len() as int));
    if i == s.len() {
        assert(t.len() == 0);
        return None;
    }
    let mut acc: usize = 0;
    let mut j: usize = i;
    loop
        invariant
            i <= j <= s@.len(),
            i < s@.len(),
            t == (if s@.len() > 0 && s@[0] == '+' { s@.skip(1) } else { s@ }),
            t == s@.subrange(i as int, s@.len() as int),
            all_digits(s@.subrange(i as int, j as int)),
            acc == dec_val(s@.subrange(i as int, j as int)),
            acc <= usize::MAX,
        decreases s@.len() - j,
    {
        if j == s.len() {
            proof {
                assert(s@.subrange(i as int, j as int) =~= t);
                assert(all_digits(t));
                assert(t.len() > 0);
                assert(dec_val(t) == acc);
                assert(parse_usize_spec(s@) == Some(acc as nat));
            }
            return Some(acc);
        }
        let c = s[j];
        let ghost pre = s@.subrange(i as int, j as int);
        let ghost cur = s@.subrange(i as int, j as int + 1);
        proof {
            assert(cur.drop_last() =~= pre);
            assert(cur.last() == c);
        }
        match digit_of(c) {
            None => {
                proof {
                    assert(t[j - i] == c);
                    assert(!is_digit(c));
                    assert(!all_digits(t)) by {
                        if all_digits(t) {
                            assert(is_digit(t[j - i]));
                        }
                    }
                }
                return None;
            },
            Some(d) => {
                if acc > usize::MAX / 10 {
                    proof {
                        lemma_dec_val_overflow(cur, acc as int, d as int);
                        assert(cur =~= t.take(j - i + 1));
                        if all_digits(t) {
                            lemma_dec_val_prefix_grows(t, j - i + 1);
                        }
                    }
                    return None;
                }
                let acc10 = acc * 10;
                assert(acc10 <= usize::MAX) by {
                    lemma_mul10(acc as int, usize::MAX as int);
                }
                if d as usize > usize::MAX - acc10 {
                    proof {
                        assert(dec_val(cur) == acc * 10 + d);
                        assert(cur =~= t.take(j - i + 1));
                        if all_digits(t) {
                            lemma_dec_val_prefix_grows(t, j - i + 1);
                        }
                    }
                    return None;
                }
                acc = acc10 + d as usize;
                j = j + 1;
                proof {
                    assert(s@.subrange(i as int, j as int) == cur);
                }
            },
        }
    }
}

/// If `acc` is past a tenth of the bound, ten times `acc` plus a digit is past
/// the bound.
proof fn lemma_dec_val_overflow(cur: Seq<char>, acc: int, d: int)
    requires
        cur.len() > 0,
        dec_val(cur.drop_last()) == acc,
        digit_val(cur.last()) == d,
        acc > usize::MAX / 10,
        0 <= d,
    ensures
        dec_val(cur) > usize::MAX,
{
    assert(dec_val(cur) == acc * 10 + d);
    assert(acc * 10 > usize::MAX) by (nonlinear_arith)
        requires
            acc > usize::MAX / 10,
            acc >= 0,
            usize::MAX / 10 * 10 + 9 >= usize::MAX,
    {
    }
}

/// Multiplying a value at most a tenth of the bound by ten stays at the bound.
proof fn lemma_mul10(acc: int, bound: int)
    requires
        0 <= acc <= bound / 10,
        bound >= 0,
    ensures
        acc * 10 <= bound,
{
    assert(acc * 10 <= bound / 10 * 10) by (nonlinear_arith)
        requires
            0 <= acc <= bound / 10,
    {
    }
}

/// Digit-string values only grow as digits are appended.
pub proof fn lemma_dec_val_prefix_grows(t: Seq<char>, k: int)
    requires
        0 < k <= t.len(),
        all_digits(t),
    ensures
        dec_val(t) >= dec_val(t.take(k)),
    decreases t.len() - k,
{
    if k == t.len() {
        assert(t.take(k) =~= t);
    } else {
        lemma_dec_val_prefix_grows(t, k + 1);
        lemma_dec_val_nonneg(t.take(k));
        let a = t.take(k + 1);
        assert(a.drop_last() =~= t.take(k));
        assert(dec_val(a) == dec_val(t.take(k)) * 10 + digit_val(a.last()));
        assert(dec_val(t.take(k)) * 10 >= dec_val(t.take(k))) by (nonlinear_arith)
            requires
                dec_val(t.take(k)) >= 0,
        {
        }
        assert(digit_val(a.last()) >= 0);
    }
}

/// A digit string's value is not negative.
pub proof fn lemma_dec_val_nonneg(s: Seq<char>)
    ensures
        dec_val(s) >= 0,
    decreases s.len(),
{
    if s.len() > 0 {
        lemma_dec_val_nonneg(s.drop_last());
        assert(dec_val(s.drop_last()) * 10 >= 0) by (nonlinear_arith)
            requires
                dec_val(s.drop_last()) >= 0,
        {
        }
        assert(digit_val(s.last()) >= 0);
    }
}

/// The decimal rendering of `n`, as `dec_str` describes it.
pub fn usize_to_chars(n: usize) -> (r: Vec<char>)
    ensures
        r@ == dec_str(n as int),
    decreases n,
{
    if n < 10 {
        let mut r: Vec<char> = Vec::new();
        r.push(char_of_digit(n));
        assert(r@ =~= seq![digit_char(n as int)]);
        r
    } else {
        let mut r = usize_to_chars(n / 10);
        r.push(char_of_digit(n % 10));
        assert(r@ =~= dec_str((n / 10) as int).push(digit_char((n % 10) as int)));
        r
    }
}

/// A decimal rendering holds only digits, at least one of them.
pub proof fn lemma_dec_str_digits(n: int)
    requires
        n >= 0,
    ensures
        dec_str(n).len() >= 1,
        all_digits(dec_str(n)),
        dec_str(n)[0] != '+',
    decreases n,
{
    if n < 10 {
        assert(is_digit(digit_char(n)));
    } else {
        lemma_dec_str_digits(n / 10);
        let s = dec_str(n);
        assert(s == dec_str(n / 10).push(digit_char(n % 10)));
        assert(forall|i: int| 0 <= i < s.len() - 1 ==> s[i] == dec_str(n / 10)[i]);
        assert(is_digit(s[s.len() - 1]));
        assert(s[0] == dec_str(n / 10)[0]);
    }
}

/// Rendering then parsing a number gives the number back.
pub proof fn lemma_dec_val_dec_str(n: int)
    requires
        n >= 0,
    ensures
        dec_val(dec_str(n)) == n,
    decreases n,
{
    if n < 10 {
        let s = dec_str(n);
        assert(s == seq![digit_char(n)]);
        assert(s.len() == 1);
        assert(s.drop_last() =~= Seq::<char>::empty());
        assert(s.last() == digit_char(n));
        assert(dec_val(s.drop_last()) == 0);
        assert(dec_val(s) == 0 * 10 + digit_val(s.last()));
        assert(digit_val(digit_char(n)) == n);
    } else {
        lemma_dec_val_dec_str(n / 10);
        let s = dec_str(n);
        assert(s.drop_last() =~= dec_str(n / 10));
        assert(s.last() == digit_char(n % 10));
        assert(digit_val(digit_char(n % 10)) == n % 10) by {
            assert(0 <= n % 10 < 10);
        }
        assert(dec_val(s) == (n / 10) * 10 + n % 10);
        assert((n / 10) * 10 + n % 10 == n) by (nonlinear_arith)
            requires
                n >= 0,
    {
    }
    }
}

/// Rendering a `usize` then parsing it as one succeeds with the same value.
pub proof fn lemma_parse_dec_str(n: int)
    requires
        0 <= n <= usize::MAX,
    ensures
        parse_usize_spec(dec_str(n)) == Some(n as nat),
{
    lemma_dec_str_digits(n);
    lemma_dec_val_dec_str(n);
}

} // verus!
