//! Decimal text: the digits of numbers, their parsing, and splitting
//! text on a separator character.

use vstd::prelude::*;

verus! {

pub open spec fn is_digit(c: char) -> bool {
    '0' <= c && c <= '9'
}

pub open spec fn digit_val(c: char) -> nat {
    (c as int - '0' as int) as nat
}

pub open spec fn all_digits(s: Seq<char>) -> bool {
    forall|i: int| 0 <= i < s.len() ==> is_digit(#[trigger] s[i])
}

/// The number written by the decimal digits `s` (most significant
/// first; leading zeros allowed).
pub open spec fn digits_value(s: Seq<char>) -> nat
    decreases s.len(),
{
    if s.len() == 0 {
        0
    } else {
        digits_value(s.drop_last()) * 10 + digit_val(s.last())
    }
}

pub open spec fn digit_char(d: nat) -> char {
    if d == 0 {
        '0'
    } else if d == 1 {
        '1'
    } else if d == 2 {
        '2'
    } else if d == 3 {
        '3'
    } else if d == 4 {
        '4'
    } else if d == 5 {
        '5'
    } else if d == 6 {
        '6'
    } else if d == 7 {
        '7'
    } else if d == 8 {
        '8'
    } else {
        '9'
    }
}

/// The shortest decimal representation of `n` (no leading zero).
pub open spec fn decimal(n: nat) -> Seq<char>
    decreases n,
{
    if n < 10 {
        seq![digit_char(n)]
    } else {
        decimal(n / 10).push(digit_char(n % 10))
    }
}

/// What `u8::from_str` accepts: an optional `+`, then one or more ASCII
/// digits whose value fits in a `u8` (leading zeros allowed).
pub open spec fn spec_parse_u8(s: Seq<char>) -> Option<u8> {
    let d = if s.len() > 0 && s[0] == '+' {
        s.drop_first()
    } else {
        s
    };
    if d.len() > 0 && all_digits(d) && digits_value(d) <= 255 {
        Some(digits_value(d) as u8)
    } else {
        None
    }
}

/// One group of a dotted-quad IPv4 address: one to three ASCII digits,
/// no leading zero unless the group is `0` itself, value at most 255.
pub open spec fn spec_parse_octet(s: Seq<char>) -> Option<u8> {
    if 1 <= s.len() <= 3 && all_digits(s) && !(s.len() > 1 && s[0] == '0') && digits_value(s)
        <= 255 {
        Some(digits_value(s) as u8)
    } else {
        None
    }
}

/// The pieces of `s` between occurrences of `sep` (always at least one
/// piece; empty pieces kept).
pub open spec fn split_on(s: Seq<char>, sep: char) -> Seq<Seq<char>>
    decreases s.len(),
{
    if s.len() == 0 {
        seq![Seq::empty()]
    } else {
        let r = split_on(s.drop_last(), sep);
        if s.last() == sep {
            r.push(Seq::empty())
        } else {
            r.update(r.len() - 1, r.last().push(s.last()))
        }
    }
}

/// `i` is the first position of `c` in `s`.
pub open spec fn is_first_index(s: Seq<char>, c: char, i: int) -> bool {
    &&& 0 <= i < s.len()
    &&& s[i] == c
    &&& forall|j: int| 0 <= j < i ==> s[j] != c
}

/// `s` cut at the first occurrence of `c` (the occurrence itself
/// removed), or `None` when `c` does not occur.
pub open spec fn split_once(s: Seq<char>, c: char) -> Option<(Seq<char>, Seq<char>)> {
    if exists|i: int| is_first_index(s, c, i) {
        let i = choose|i: int| is_first_index(s, c, i);
        Some((s.take(i), s.skip(i + 1)))
    } else {
        None
    }
}

pub proof fn lemma_first_index_unique(s: Seq<char>, c: char, i: int, k: int)
    requires
        is_first_index(s, c, i),
        is_first_index(s, c, k),
    ensures
        i == k,
{
    if i < k {
        assert(s[i] != c);
    } else if k < i {
        assert(s[k] != c);
    }
}

pub proof fn lemma_split_once_at(s: Seq<char>, c: char, i: int)
    requires
        is_first_index(s, c, i),
    ensures
        split_once(s, c) == Some((s.take(i), s.skip(i + 1))),
{
    let k = choose|k: int| is_first_index(s, c, k);
    lemma_first_index_unique(s, c, i, k);
}

pub proof fn lemma_split_on_nonempty(s: Seq<char>, sep: char)
    ensures
        split_on(s, sep).len() >= 1,
    decreases s.len(),
{
    if s.len() > 0 {
        lemma_split_on_nonempty(s.drop_last(), sep);
    }
}

/// A piece without separator splits into itself.
pub proof fn lemma_split_on_no_sep(y: Seq<char>, sep: char)
    requires
        !y.contains(sep),
    ensures
        split_on(y, sep) == seq![y],
    decreases y.len(),
{
    if y.len() == 0 {
        assert(y =~= Seq::<char>::empty());
    } else {
        let yl = y.drop_last();
        assert(!yl.contains(sep)) by {
            if yl.contains(sep) {
                let j = choose|j: int| 0 <= j < yl.len() && yl[j] == sep;
                assert(y[j] == sep);
            }
        }
        lemma_split_on_no_sep(yl, sep);
        assert(split_on(yl, sep).last() == yl);
        assert(y.last() != sep) by {
            assert(y[y.len() - 1] == y.last());
        }
        assert(yl.push(y.last()) =~= y);
        assert(seq![yl].update(0, yl.push(y.last())) =~= seq![y]);
    }
}

/// Appending a separator and a separator-free piece adds exactly that
/// piece.
pub proof fn lemma_split_on_append(x: Seq<char>, y: Seq<char>, sep: char)
    requires
        !y.contains(sep),
    ensures
        split_on(x + seq![sep] + y, sep) == split_on(x, sep).push(y),
    decreases y.len(),
{
    let xs = x + seq![sep];
    if y.len() == 0 {
        assert(xs + y =~= xs);
        assert(xs.drop_last() =~= x);
        assert(xs.last() == sep);
        assert(y =~= Seq::<char>::empty());
        assert(split_on(xs, sep) == split_on(x, sep).push(Seq::empty()));
    } else {
        let yl = y.drop_last();
        assert(!yl.contains(sep)) by {
            if yl.contains(sep) {
                let j = choose|j: int| 0 <= j < yl.len() && yl[j] == sep;
                assert(y[j] == sep);
            }
        }
        lemma_split_on_append(x, yl, sep);
        let whole = xs + y;
        assert(whole.drop_last() =~= xs + yl);
        assert(whole.last() == y.last());
        assert(y.last() != sep) by {
            assert(y[y.len() - 1] == y.last());
        }
        let r = split_on(x, sep).push(yl);
        assert(split_on(whole, sep) == r.update(r.len() - 1, r.last().push(whole.last())));
        assert(r.last() == yl);
        assert(r.update(r.len() - 1, r.last().push(y.last())) =~= split_on(x, sep).push(y)) by {
            assert(yl.push(y.last()) =~= y);
        }
    }
}

pub proof fn lemma_digit_char(d: nat)
    requires
        d < 10,
    ensures
        is_digit(digit_char(d)),
        digit_val(digit_char(d)) == d,
        digit_char(d) == '0' <==> d == 0,
        digit_char(d) != '.',
        digit_char(d) != '/',
        digit_char(d) != '+',
{
}

/// Facts on the decimal representation of a number.
pub proof fn lemma_decimal(n: nat)
    ensures
        all_digits(decimal(n)),
        digits_value(decimal(n)) == n,
        decimal(n).len() >= 1,
        n < 10 ==> decimal(n).len() == 1,
        10 <= n < 100 ==> decimal(n).len() == 2,
        100 <= n < 1000 ==> decimal(n).len() == 3,
        decimal(n)[0] == '0' ==> n == 0,
        !decimal(n).contains('.'),
        !decimal(n).contains('/'),
    decreases n,
{
    if n < 10 {
        lemma_digit_char(n);
        assert(decimal(n) =~= seq![digit_char(n)]);
        assert(seq![digit_char(n)].drop_last() =~= Seq::<char>::empty());
        assert(digits_value(decimal(n)) == digits_value(Seq::<char>::empty()) * 10 + digit_val(
            digit_char(n),
        ));
    } else {
        lemma_decimal(n / 10);
        lemma_digit_char(n % 10);
        let p = decimal(n / 10);
        let d = p.push(digit_char(n % 10));
        assert(d.drop_last() =~= p);
        assert(digits_value(d) == digits_value(p) * 10 + digit_val(digit_char(n % 10)));
        assert(n == (n / 10) * 10 + n % 10);
        assert(forall|i: int| 0 <= i < p.len() ==> d[i] == p[i]);
        assert(all_digits(d)) by {
            assert forall|i: int| 0 <= i < d.len() implies is_digit(#[trigger] d[i]) by {
                if i < p.len() {
                    assert(d[i] == p[i]);
                }
            }
        }
        assert(d[0] == p[0]);
        assert(!d.contains('.')) by {
            if d.contains('.') {
                let j = choose|j: int| 0 <= j < d.len() && d[j] == '.';
                if j < p.len() {
                    assert(p[j] == '.');
                }
            }
        }
        assert(!d.contains('/')) by {
            if d.contains('/') {
                let j = choose|j: int| 0 <= j < d.len() && d[j] == '/';
                if j < p.len() {
                    assert(p[j] == '/');
                }
            }
        }
    }
}

/// A decimal representation of an octet is read back by both the
/// octet grammar and `u8::from_str`.
pub proof fn lemma_decimal_u8_parses(v: u8)
    ensures
        spec_parse_octet(decimal(v as nat)) == Some(v),
        spec_parse_u8(decimal(v as nat)) == Some(v),
{
    lemma_decimal(v as nat);
    lemma_digit_char(0);
}

/// Digits read left to right never decrease in value.
pub proof fn lemma_digits_value_prefix(s: Seq<char>, i: int)
    requires
        0 <= i <= s.len(),
    ensures
        digits_value(s.take(i)) <= digits_value(s),
    decreases s.len(),
{
    if i < s.len() {
        lemma_digits_value_prefix(s.drop_last(), i);
        assert(s.drop_last().take(i) =~= s.take(i));
    } else {
        assert(s.take(i) =~= s);
    }
}

/// The digit string of `d` for `d < 10`.
pub fn digit_str(d: u8) -> (r: &'static str)
    requires
        d < 10,
    ensures
        r@ == seq![digit_char(d as nat)],
{
    if d == 0 {
        proof {
            reveal_strlit("0");
        }
        assert("0"@ =~= seq!['0']);
        "0"
    } else if d == 1 {
        proof {
            reveal_strlit("1");
        }
        assert("1"@ =~= seq!['1']);
        "1"
    } else if d == 2 {
        proof {
            reveal_strlit("2");
        }
        assert("2"@ =~= seq!['2']);
        "2"
    } else if d == 3 {
        proof {
            reveal_strlit("3");
        }
        assert("3"@ =~= seq!['3']);
        "3"
    } else if d == 4 {
        proof {
            reveal_strlit("4");
        }
        assert("4"@ =~= seq!['4']);
        "4"
    } else if d == 5 {
        proof {
            reveal_strlit("5");
        }
        assert("5"@ =~= seq!['5']);
        "5"
    } else if d == 6 {
        proof {
            reveal_strlit("6");
        }
        assert("6"@ =~= seq!['6']);
        "6"
    } else if d == 7 {
        proof {
            reveal_strlit("7");
        }
        assert("7"@ =~= seq!['7']);
        "7"
    } else if d == 8 {
        proof {
            reveal_strlit("8");
        }
        assert("8"@ =~= seq!['8']);
        "8"
    } else {
        proof {
            reveal_strlit("9");
        }
        assert("9"@ =~= seq!['9']);
        "9"
    }
}

/// Append the decimal digits of `n` to `out`.
pub fn push_decimal(out: &mut String, n: u64)
    ensures
        final(out)@ == old(out)@ + decimal(n as nat),
    decreases n,
{
    if n < 10 {
        out.append(digit_str(n as u8));
    } else {
        push_decimal(out, n / 10);
        out.append(digit_str((n % 10) as u8));
        assert(old(out)@ + decimal((n / 10) as nat) + seq![digit_char((n % 10) as nat)]
            =~= old(out)@ + decimal(n as nat));
    }
}

/// Collect the characters of `s`.
pub fn chars_of(s: &str) -> (r: Vec<char>)
    ensures
        r@ == s@,
{
    let mut out: Vec<char> = Vec::new();
    for c in it: s.chars()
        invariant
            it.seq() == s@,
            out@ == it.seq().take(it.index() as int),
    {
        out.push(c);
        assert(it.seq().take(it.index() + 1) =~= out@);
    }
    assert(out@ =~= s@);
    out
}

/// Whether every character of `cs[start..end]` is a decimal digit.
fn all_digits_in(cs: &Vec<char>, start: usize, end: usize) -> (r: bool)
    requires
        start <= end <= cs.len(),
    ensures
        r == all_digits(cs@.subrange(start as int, end as int)),
{
    let mut i: usize = start;
    while i < end
        invariant
            start <= i <= end <= cs.len(),
            forall|j: int| start <= j < i ==> is_digit(#[trigger] cs@[j]),
        decreases end - i,
    {
        let c = cs[i];
        if !(c >= '0' && c <= '9') {
            assert(cs@.subrange(start as int, end as int)[i - start] == c);
            return false;
        }
        i = i + 1;
    }
    let ghost sub = cs@.subrange(start as int, end as int);
    assert forall|k: int| 0 <= k < sub.len() implies is_digit(#[trigger] sub[k]) by {
        assert(sub[k] == cs@[start + k]);
    }
    true
}

/// The value of the digits `cs[start..end]`, if it is at most `limit`.
fn digits_value_upto(cs: &Vec<char>, start: usize, end: usize, limit: u32) -> (r: Option<u32>)
    requires
        start <= end <= cs.len(),
        all_digits(cs@.subrange(start as int, end as int)),
        limit <= 1000,
    ensures
        r matches Some(v) ==> v == digits_value(cs@.subrange(start as int, end as int)) && v
            <= limit,
        r is None ==> digits_value(cs@.subrange(start as int, end as int)) > limit,
{
    let ghost whole = cs@.subrange(start as int, end as int);
    let mut v: u32 = 0;
    let mut i: usize = start;
    while i < end
        invariant
            start <= i <= end <= cs.len(),
            whole == cs@.subrange(start as int, end as int),
            all_digits(whole),
            v == digits_value(cs@.subrange(start as int, i as int)),
            v <= limit,
            limit <= 1000,
        decreases end - i,
    {
        let c = cs[i];
        assert(whole[i - start] == c);
        let d: u32 = (c as u32) - ('0' as u32);
        let ghost next = cs@.subrange(start as int, i + 1);
        assert(next.drop_last() =~= cs@.subrange(start as int, i as int));
        assert(next.last() == c);
        let nv: u32 = v * 10 + d;
        if nv > limit {
            proof {
                assert(whole.take(i + 1 - start) =~= next);
                lemma_digits_value_prefix(whole, i + 1 - start);
            }
            return None;
        }
        v = nv;
        i = i + 1;
    }
    Some(v)
}

/// `u8::from_str` on `cs[start..end]`.
pub fn parse_u8_chars(cs: &Vec<char>, start: usize, end: usize) -> (r: Option<u8>)
    requires
        start <= end <= cs.len(),
    ensures
        r == spec_parse_u8(cs@.subrange(start as int, end as int)),
{
    let ghost s = cs@.subrange(start as int, end as int);
    let mut b: usize = start;
    if start < end && cs[start] == '+' {
        b = start + 1;
        assert(s.drop_first() =~= cs@.subrange(b as int, end as int));
    } else {
        assert(s =~= cs@.subrange(b as int, end as int));
    }
    if b == end {
        return None;
    }
    if !all_digits_in(cs, b, end) {
        return None;
    }
    match digits_value_upto(cs, b, end, 255) {
        Some(v) => Some(v as u8),
        None => None,
    }
}

/// One dotted-quad group `cs[start..end]`.
pub fn parse_octet_chars(cs: &Vec<char>, start: usize, end: usize) -> (r: Option<u8>)
    requires
        start <= end <= cs.len(),
    ensures
        r == spec_parse_octet(cs@.subrange(start as int, end as int)),
{
    let ghost s = cs@.subrange(start as int, end as int);
    let len: usize = end - start;
    if len < 1 || len > 3 {
        return None;
    }
    if !all_digits_in(cs, start, end) {
        return None;
    }
    if len > 1 && cs[start] == '0' {
        assert(s[0] == cs@[start as int]);
        return None;
    }
    assert(len > 1 ==> s[0] == cs@[start as int]);
    match digits_value_upto(cs, start, end, 255) {
        Some(v) => Some(v as u8),
        None => None,
    }
}

/// The first position of `c` in `cs`, if any.
pub fn find_char(cs: &Vec<char>, c: char) -> (r: Option<usize>)
    ensures
        r matches Some(i) ==> is_first_index(cs@, c, i as int),
        r is None ==> forall|j: int| 0 <= j < cs@.len() ==> cs@[j] != c,
{
    let mut i: usize = 0;
    while i < cs.len()
        invariant
            i <= cs.len(),
            forall|j: int| 0 <= j < i ==> cs@[j] != c,
        decreases cs.len() - i,
    {
        if cs[i] == c {
            return Some(i);
        }
        i = i + 1;
    }
    None
}

/// The pieces of `cs` between occurrences of `sep`, as index ranges.
pub fn split_ranges(cs: &Vec<char>, sep: char) -> (r: Vec<(usize, usize)>)
    ensures
        r@.len() == split_on(cs@, sep).len(),
        forall|k: int|
            0 <= k < r@.len() ==> {
                &&& (#[trigger] r@[k]).0 <= r@[k].1 <= cs@.len()
                &&& cs@.subrange(r@[k].0 as int, r@[k].1 as int) == split_on(cs@, sep)[k]
            },
{
    let mut done: Vec<(usize, usize)> = Vec::new();
    let mut cur_start: usize = 0;
    let mut i: usize = 0;
    proof {
        assert(cs@.take(0) =~= Seq::<char>::empty());
        assert(cs@.subrange(0, 0) =~= Seq::<char>::empty());
    }
    while i < cs.len()
        invariant
            cur_start <= i <= cs.len(),
            done@.len() + 1 == split_on(cs@.take(i as int), sep).len(),
            forall|k: int|
                0 <= k < done@.len() ==> {
                    &&& (#[trigger] done@[k]).0 <= done@[k].1 <= cs@.len()
                    &&& cs@.subrange(done@[k].0 as int, done@[k].1 as int) == split_on(
                        cs@.take(i as int),
                        sep,
                    )[k]
                },
            cs@.subrange(cur_start as int, i as int) == split_on(cs@.take(i as int), sep).last(),
        decreases cs.len() - i,
    {
        let ghost pre = cs@.take(i as int);
        let ghost nxt = cs@.take(i + 1);
        proof {
            assert(nxt.drop_last() =~= pre);
            assert(nxt.last() == cs@[i as int]);
            lemma_split_on_nonempty(pre, sep);
        }
        if cs[i] == sep {
            done.push((cur_start, i));
            cur_start = i + 1;
            proof {
                assert(cs@.subrange(cur_start as int, i + 1) =~= Seq::<char>::empty());
            }
        } else {
            proof {
                assert(cs@.subrange(cur_start as int, i + 1) =~= cs@.subrange(
                    cur_start as int,
                    i as int,
                ).push(cs@[i as int]));
            }
        }
        i = i + 1;
    }
    done.push((cur_start, i));
    proof {
        assert(cs@.take(i as int) =~= cs@);
    }
    done
}

} // verus!
