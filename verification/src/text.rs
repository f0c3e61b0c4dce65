//! Character-level text handling: splitting into lines and fields, decimal
//! rendering and decimal parsing of integers.

use vstd::prelude::*;

verus! {

broadcast use vstd::string::axiom_spec_iter;

/// The characters of `s`, in order.
pub fn chars_of(s: &str) -> (cs: Vec<char>)
    ensures
        cs@ == s@,
{
    let mut cs: Vec<char> = Vec::new();
    for c in it: s.chars()
        invariant
            cs@ == it.seq().take(it.index() as int),
            it.seq() == s@,
    {
        cs.push(c);
    }
    cs
}


/// The string of the characters `cs`, in order. Calls std's
/// `FromIterator<&char>` for `String` (`collect`), which the std docs
/// describe as building the string from the characters one after another.
#[verifier::external_body]
pub fn string_from_chars(cs: &Vec<char>) -> (s: String)
    ensures
        s@ == cs@,
{
    cs.iter().collect()
}

/// `s` cut at every occurrence of `sep`: the pieces between separators, in
/// order, empty pieces included; there is always one piece more than there
/// are separators.
pub open spec fn split_on(s: Seq<char>, sep: char) -> Seq<Seq<char>>
    decreases s.len(),
{
    if s.len() == 0 {
        seq![Seq::<char>::empty()]
    } else {
        let init = split_on(s.drop_last(), sep);
        if s.last() == sep {
            init.push(Seq::<char>::empty())
        } else {
            init.update(init.len() - 1, init.last().push(s.last()))
        }
    }
}

/// The lines of `s`: the pieces between newlines, where a newline ends the
/// line before it, so that a final newline opens no further line.
pub open spec fn lines_of(s: Seq<char>) -> Seq<Seq<char>> {
    let pieces = split_on(s, '\n');
    if pieces.last().len() == 0 {
        pieces.drop_last()
    } else {
        pieces
    }
}

/// `split_on` always yields at least one piece.
pub proof fn lemma_split_on_nonempty(s: Seq<char>, sep: char)
    ensures
        split_on(s, sep).len() >= 1,
    decreases s.len(),
{
    if s.len() > 0 {
        lemma_split_on_nonempty(s.drop_last(), sep);
    }
}

/// Cutting a prefix of `s` gives the same pieces as cutting `s`, all but
/// the last one, which may still grow.
pub proof fn lemma_split_on_prefix(s: Seq<char>, i: int, sep: char)
    requires
        0 <= i <= s.len(),
    ensures
        split_on(s.take(i), sep).len() <= split_on(s, sep).len(),
        forall|k: int|
            0 <= k < split_on(s.take(i), sep).len() - 1 ==> #[trigger] split_on(s.take(i), sep)[k]
                == split_on(s, sep)[k],
    decreases s.len(),
{
    if i == s.len() {
        assert(s.take(i) =~= s);
    } else {
        let t = s.drop_last();
        assert(s.take(i) =~= t.take(i));
        lemma_split_on_prefix(t, i, sep);
        lemma_split_on_nonempty(t, sep);
    }
}

/// Cutting text that holds no separator gives the text itself.
pub proof fn lemma_split_on_no_sep(u: Seq<char>, sep: char)
    requires
        !u.contains(sep),
    ensures
        split_on(u, sep) == seq![u],
    decreases u.len(),
{
    if u.len() > 0 {
        let t = u.drop_last();
        assert(!t.contains(sep)) by {
            if t.contains(sep) {
                let i = choose|i: int| 0 <= i < t.len() && t[i] == sep;
                assert(u[i] == sep);
            }
        }
        lemma_split_on_no_sep(t, sep);
        assert(u.last() != sep) by {
            assert(u[u.len() - 1] == u.last());
        }
        assert(t.push(u.last()) =~= u);
        assert(seq![t].update(0, t.push(u.last())) =~= seq![u]);
    } else {
        assert(u =~= Seq::<char>::empty());
    }
}

/// Text joined by a separator is cut into the pieces of each side.
pub proof fn lemma_split_on_join(a: Seq<char>, b: Seq<char>, sep: char)
    ensures
        split_on(a.push(sep) + b, sep) == split_on(a, sep) + split_on(b, sep),
    decreases b.len(),
{
    let x = a.push(sep) + b;
    if b.len() == 0 {
        assert(x =~= a.push(sep));
        assert(x.drop_last() =~= a);
        assert(split_on(a, sep).push(Seq::<char>::empty()) =~= split_on(a, sep) + split_on(b, sep));
    } else {
        assert(x.drop_last() =~= a.push(sep) + b.drop_last());
        assert(x.last() == b.last());
        lemma_split_on_join(a, b.drop_last(), sep);
        lemma_split_on_nonempty(b.drop_last(), sep);
        lemma_split_on_nonempty(a, sep);
        let pa = split_on(a, sep);
        let pb = split_on(b.drop_last(), sep);
        if b.last() == sep {
            assert((pa + pb).push(Seq::<char>::empty()) =~= pa + pb.push(Seq::<char>::empty()));
        } else {
            assert((pa + pb).update((pa + pb).len() - 1, (pa + pb).last().push(b.last())) =~= pa
                + pb.update(pb.len() - 1, pb.last().push(b.last())));
        }
    }
}

/// Appending text that holds no separator extends the last piece.
pub proof fn lemma_split_on_extend(t: Seq<char>, u: Seq<char>, sep: char)
    requires
        !u.contains(sep),
    ensures
        split_on(t + u, sep) == split_on(t, sep).update(
            split_on(t, sep).len() - 1,
            split_on(t, sep).last() + u,
        ),
    decreases u.len(),
{
    lemma_split_on_nonempty(t, sep);
    let pt = split_on(t, sep);
    if u.len() == 0 {
        assert(t + u =~= t);
        assert(pt.update(pt.len() - 1, pt.last() + u) =~= pt);
    } else {
        let v = u.drop_last();
        assert(!v.contains(sep)) by {
            if v.contains(sep) {
                let i = choose|i: int| 0 <= i < v.len() && v[i] == sep;
                assert(u[i] == sep);
            }
        }
        lemma_split_on_extend(t, v, sep);
        assert((t + u).drop_last() =~= t + v);
        assert((t + u).last() == u.last());
        assert(u.last() != sep) by {
            assert(u[u.len() - 1] == u.last());
        }
        let pv = split_on(t + v, sep);
        assert(pv.len() == pt.len());
        assert(pv.last() == pt.last() + v);
        assert((pt.last() + v).push(u.last()) =~= pt.last() + u);
        assert(pv.update(pv.len() - 1, pv.last().push(u.last())) =~= pt.update(
            pt.len() - 1,
            pt.last() + u,
        ));
    }
}

/// When text ends a line (its last piece is empty), a further line `l` and
/// its newline add `l` as one more line.
pub proof fn lemma_split_on_append_line(t: Seq<char>, l: Seq<char>)
    requires
        split_on(t, '\n').last() == Seq::<char>::empty(),
        !l.contains('\n'),
    ensures
        split_on(t + l.push('\n'), '\n') == split_on(t, '\n').drop_last().push(l).push(
            Seq::<char>::empty(),
        ),
{
    lemma_split_on_nonempty(t, '\n');
    lemma_split_on_extend(t, l, '\n');
    lemma_split_on_join(t + l, Seq::<char>::empty(), '\n');
    assert((t + l).push('\n') + Seq::<char>::empty() =~= t + l.push('\n'));
    let pt = split_on(t, '\n');
    assert(pt.update(pt.len() - 1, pt.last() + l) =~= pt.drop_last().push(l));
    assert(split_on(Seq::<char>::empty(), '\n') =~= seq![Seq::<char>::empty()]);
    assert(pt.drop_last().push(l) + seq![Seq::<char>::empty()] =~= pt.drop_last().push(l).push(
        Seq::<char>::empty(),
    ));
}

/// The decimal rendering of a number holds no tab and no newline.
pub proof fn lemma_decimal_plain(n: nat)
    ensures
        !decimal(n).contains('\t'),
        !decimal(n).contains('\n'),
{
    lemma_decimal_digits(n);
    let d = decimal(n);
    if d.contains('\t') {
        let i = choose|i: int| 0 <= i < d.len() && d[i] == '\t';
        assert(is_digit(d[i]));
    }
    if d.contains('\n') {
        let i = choose|i: int| 0 <= i < d.len() && d[i] == '\n';
        assert(is_digit(d[i]));
    }
}

/// A character occurs in joined text exactly when it occurs in one side.
pub broadcast proof fn lemma_contains_concat(a: Seq<char>, b: Seq<char>, c: char)
    ensures
        #[trigger] (a + b).contains(c) == (a.contains(c) || b.contains(c)),
{
    if (a + b).contains(c) {
        let i = choose|i: int| 0 <= i < (a + b).len() && (a + b)[i] == c;
        if i < a.len() {
            assert(a[i] == c);
        } else {
            assert(b[i - a.len()] == c);
        }
    }
    if a.contains(c) {
        let i = choose|i: int| 0 <= i < a.len() && a[i] == c;
        assert((a + b)[i] == c);
    }
    if b.contains(c) {
        let i = choose|i: int| 0 <= i < b.len() && b[i] == c;
        assert((a + b)[a.len() + i] == c);
    }
}

/// Splits `s` at every occurrence of `sep`.
pub fn split_chars(s: &Vec<char>, sep: char) -> (pieces: Vec<Vec<char>>)
    ensures
        pieces.len() == split_on(s@, sep).len(),
        forall|i: int| 0 <= i < pieces.len() ==> #[trigger] pieces[i]@ == split_on(s@, sep)[i],
{
    let mut done: Vec<Vec<char>> = Vec::new();
    let mut cur: Vec<char> = Vec::new();
    let mut i: usize = 0;
    while i < s.len()
        invariant
            i <= s.len(),
            split_on(s@.take(i as int), sep).len() == done.len() + 1,
            forall|j: int| 0 <= j < done.len() ==> #[trigger] done[j]@ == split_on(s@.take(i as int), sep)[j],
            cur@ == split_on(s@.take(i as int), sep).last(),
        decreases s.len() - i,
    {
        let c = s[i];
        proof {
            assert(s@.take(i + 1).drop_last() =~= s@.take(i as int));
            lemma_split_on_nonempty(s@.take(i as int), sep);
        }
        if c == sep {
            done.push(cur);
            cur = Vec::new();
        } else {
            cur.push(c);
        }
        i = i + 1;
    }
    proof {
        assert(s@.take(i as int) =~= s@);
    }
    done.push(cur);
    done
}


/// Whether `c` is one of the ASCII digits `0` to `9`.
pub open spec fn is_digit(c: char) -> bool {
    '0' <= c && c <= '9'
}

/// The value of the ASCII digit `c`.
pub open spec fn digit_value(c: char) -> int {
    c as int - '0' as int
}

/// The ASCII digit whose value is `d`, for `d` below ten.
pub open spec fn digit_char(d: nat) -> char {
    (d + '0' as int) as char
}

/// Whether every character of `s` is an ASCII digit.
pub open spec fn all_digits(s: Seq<char>) -> bool {
    forall|i: int| 0 <= i < s.len() ==> is_digit(#[trigger] s[i])
}

/// The number that the decimal digits `s` spell, most significant first.
pub open spec fn digits_value(s: Seq<char>) -> int
    decreases s.len(),
{
    if s.len() == 0 {
        0
    } else {
        digits_value(s.drop_last()) * 10 + digit_value(s.last())
    }
}

/// The decimal rendering of `n`: its digits, most significant first, with
/// no leading zero (zero is the single digit `0`).
pub open spec fn decimal(n: nat) -> Seq<char>
    decreases n,
{
    if n < 10 {
        seq![digit_char(n)]
    } else {
        decimal(n / 10).push(digit_char(n % 10))
    }
}

/// Appends the decimal rendering of `n` to `out`.
pub fn push_decimal(out: &mut Vec<char>, n: u64)
    ensures
        final(out)@ == old(out)@ + decimal(n as nat),
    decreases n,
{
    if n >= 10 {
        push_decimal(out, n / 10);
    }
    let d: u8 = (n % 10) as u8;
    let c: char = (d + 48u8) as char;
    proof {
        assert(c == digit_char((n % 10) as nat));
    }
    out.push(c);
}


/// The digits of an unsigned number: `tok` without the one `+` sign that
/// may lead it.
pub open spec fn unsigned_digits(tok: Seq<char>) -> Seq<char> {
    if tok.len() > 0 && tok[0] == '+' {
        tok.drop_first()
    } else {
        tok
    }
}

/// Whether `s` is a nonempty run of decimal digits whose value is at most
/// `limit`.
pub open spec fn digits_within(s: Seq<char>, limit: int) -> bool {
    s.len() > 0 && all_digits(s) && digits_value(s) <= limit
}

/// `tok` read as a `usize` in decimal: an optional `+` sign, then one or
/// more digits, with a value that fits; `None` for any other text.
pub open spec fn parse_usize(tok: Seq<char>) -> Option<usize> {
    let ds = unsigned_digits(tok);
    if digits_within(ds, usize::MAX as int) {
        Some(digits_value(ds) as usize)
    } else {
        None
    }
}

/// `tok` read as an `i64` in decimal: an optional `+` or `-` sign, then one
/// or more digits, with a value that fits; `None` for any other text.
pub open spec fn parse_i64(tok: Seq<char>) -> Option<i64> {
    if tok.len() > 0 && tok[0] == '-' {
        let ds = tok.drop_first();
        if digits_within(ds, i64::MAX as int + 1) {
            Some((-digits_value(ds)) as i64)
        } else {
            None
        }
    } else {
        let ds = unsigned_digits(tok);
        if digits_within(ds, i64::MAX as int) {
            Some(digits_value(ds) as i64)
        } else {
            None
        }
    }
}

/// Digits have a value of at least zero.
proof fn lemma_digits_value_nonneg(s: Seq<char>)
    requires
        all_digits(s),
    ensures
        digits_value(s) >= 0,
    decreases s.len(),
{
    if s.len() > 0 {
        assert(all_digits(s.drop_last())) by {
            assert forall|i: int| 0 <= i < s.drop_last().len() implies is_digit(
                #[trigger] s.drop_last()[i],
            ) by {
                assert(s.drop_last()[i] == s[i]);
            }
        }
        lemma_digits_value_nonneg(s.drop_last());
        assert(is_digit(s[s.len() - 1]));
    }
}

/// A prefix of a run of digits is worth no more than the whole run.
proof fn lemma_digits_value_prefix(s: Seq<char>, k: int)
    requires
        all_digits(s),
        0 <= k <= s.len(),
    ensures
        digits_value(s.take(k)) <= digits_value(s),
    decreases s.len(),
{
    if k < s.len() {
        let init = s.drop_last();
        assert(all_digits(init)) by {
            assert forall|i: int| 0 <= i < init.len() implies is_digit(#[trigger] init[i]) by {
                assert(init[i] == s[i]);
            }
        }
        lemma_digits_value_prefix(init, k);
        assert(init.take(k) =~= s.take(k));
        lemma_digits_value_nonneg(init);
        assert(is_digit(s[s.len() - 1]));
    } else {
        assert(s.take(k) =~= s);
    }
}

/// Reads `s[start..]` as decimal digits: `Some` of their value when it is a
/// nonempty run of digits worth at most `limit`, `None` otherwise.
fn parse_digits(s: &Vec<char>, start: usize, limit: u64) -> (r: Option<u64>)
    requires
        start <= s.len(),
    ensures
        r is Some <==> digits_within(s@.subrange(start as int, s.len() as int), limit as int),
        r matches Some(v) ==> v as int == digits_value(s@.subrange(start as int, s.len() as int)),
{
    let ghost ds = s@.subrange(start as int, s.len() as int);
    if start == s.len() {
        return None;
    }
    let mut acc: u64 = 0;
    let mut i: usize = start;
    while i < s.len()
        invariant
            start <= i <= s.len(),
            ds == s@.subrange(start as int, s.len() as int),
            all_digits(ds.take(i - start)),
            acc as int == digits_value(ds.take(i - start)),
            acc <= limit,
        decreases s.len() - i,
    {
        let c = s[i];
        let ghost k: int = i - start;
        proof {
            assert(ds[k] == c);
            assert(ds.take(k + 1).drop_last() =~= ds.take(k));
            assert(ds.take(k + 1).last() == c);
        }
        if !('0' <= c && c <= '9') {
            proof {
                assert(!all_digits(ds));
            }
            return None;
        }
        let d: u64 = ((c as u32) - 48) as u64;
        assert(d as int == digit_value(c));
        if d > limit || acc > (limit - d) / 10 {
            proof {
                assert(acc * 10 + d > limit) by (nonlinear_arith)
                    requires
                        d > limit || acc > (limit - d) / 10,
                        acc >= 0,
                ;
                assert(all_digits(ds.take(k + 1))) by {
                    assert forall|j: int| 0 <= j < k + 1 implies is_digit(
                        #[trigger] ds.take(k + 1)[j],
                    ) by {
                        if j < k {
                            assert(ds.take(k + 1)[j] == ds.take(k)[j]);
                        }
                    }
                }
                if all_digits(ds) {
                    lemma_digits_value_prefix(ds, k + 1);
                }
            }
            return None;
        }
        proof {
            assert(acc * 10 + d <= limit) by (nonlinear_arith)
                requires
                    acc <= (limit - d) / 10,
                    d <= limit,
            ;
            assert(all_digits(ds.take(k + 1))) by {
                assert forall|j: int| 0 <= j < k + 1 implies is_digit(#[trigger] ds.take(k + 1)[j]) by {
                    if j < k {
                        assert(ds.take(k + 1)[j] == ds.take(k)[j]);
                    }
                }
            }
        }
        acc = acc * 10 + d;
        i = i + 1;
    }
    proof {
        assert(ds.take(i - start) =~= ds);
    }
    Some(acc)
}


/// Reads `tok` as a `usize` in decimal (see `parse_usize`).
pub fn parse_usize_chars(tok: &Vec<char>) -> (r: Option<usize>)
    ensures
        r == parse_usize(tok@),
{
    let start: usize = if tok.len() > 0 && tok[0] == '+' { 1 } else { 0 };
    proof {
        assert(unsigned_digits(tok@) =~= tok@.subrange(start as int, tok.len() as int));
    }
    let limit: u64 = usize::MAX as u64;
    match parse_digits(tok, start, limit) {
        Some(v) => Some(v as usize),
        None => None,
    }
}

/// Reads `tok` as an `i64` in decimal (see `parse_i64`).
pub fn parse_i64_chars(tok: &Vec<char>) -> (r: Option<i64>)
    ensures
        r == parse_i64(tok@),
{
    if tok.len() > 0 && tok[0] == '-' {
        proof {
            assert(tok@.drop_first() =~= tok@.subrange(1, tok.len() as int));
        }
        match parse_digits(tok, 1, 0x8000_0000_0000_0000u64) {
            Some(v) => {
                if v == 0x8000_0000_0000_0000u64 {
                    Some(i64::MIN)
                } else {
                    let m: i64 = v as i64;
                    Some(-m)
                }
            },
            None => None,
        }
    } else {
        let start: usize = if tok.len() > 0 && tok[0] == '+' { 1 } else { 0 };
        proof {
            assert(unsigned_digits(tok@) =~= tok@.subrange(start as int, tok.len() as int));
        }
        match parse_digits(tok, start, 0x7fff_ffff_ffff_ffffu64) {
            Some(v) => Some(v as i64),
            None => None,
        }
    }
}

/// The decimal rendering of `n` is a nonempty run of digits that spells `n`.
pub proof fn lemma_decimal_digits(n: nat)
    ensures
        decimal(n).len() > 0,
        all_digits(decimal(n)),
        digits_value(decimal(n)) == n,
    decreases n,
{
    if n >= 10 {
        lemma_decimal_digits(n / 10);
        let s = decimal(n);
        assert(s.drop_last() =~= decimal(n / 10));
        assert(digit_value(digit_char(n % 10)) == n % 10);
        assert(s.last() == digit_char(n % 10));
        assert((n / 10) * 10 + n % 10 == n) by (nonlinear_arith);
        assert(digits_value(s.drop_last()) == n / 10);
        assert(digits_value(s) == digits_value(s.drop_last()) * 10 + digit_value(s.last()));
        assert forall|i: int| 0 <= i < s.len() implies is_digit(#[trigger] s[i]) by {
            if i < s.len() - 1 {
                assert(s[i] == decimal(n / 10)[i]);
            }
        }
    } else {
        assert(decimal(n).drop_last() =~= Seq::<char>::empty());
        assert(digit_value(digit_char(n)) == n);
        let s = decimal(n);
        assert(s.last() == digit_char(n));
        assert(digits_value(s.drop_last()) == 0);
        assert(digits_value(s) == digits_value(s.drop_last()) * 10 + digit_value(s.last()));
    }
}

/// Reading back the decimal rendering of a `usize` gives that `usize`.
pub proof fn lemma_parse_usize_decimal(n: usize)
    ensures
        parse_usize(decimal(n as nat)) == Some(n),
{
    lemma_decimal_digits(n as nat);
    assert(is_digit(decimal(n as nat)[0]));
}

/// Reading back the decimal rendering of a nonnegative `i64` gives that
/// number.
pub proof fn lemma_parse_i64_decimal(n: nat)
    requires
        n <= i64::MAX,
    ensures
        parse_i64(decimal(n)) == Some(n as i64),
{
    lemma_decimal_digits(n);
    assert(is_digit(decimal(n)[0]));
}

} // verus!
