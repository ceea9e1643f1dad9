//! Text helpers shared by the library: decimal rendering of integers,
//! building strings character by character, the code-point order of texts,
//! splitting at a separator and replacing a pattern.
use vstd::prelude::*;

verus! {

/// The ASCII digit for `d` (for `0 <= d < 10`).
pub open spec fn digit_char(d: int) -> char {
    (48 + d) as char
}

/// Decimal digits of a natural number, most significant first, without
/// leading zeros (`0` is rendered as a single `'0'`).
pub open spec fn nat_text(n: nat) -> Seq<char>
    decreases n,
{
    if n < 10 {
        seq![digit_char(n as int)]
    } else {
        nat_text(n / 10).push(digit_char((n % 10) as int))
    }
}

/// Decimal rendering of an integer as Rust's `Display` writes it: a leading
/// `'-'` for negative values, then the digits of the magnitude.
pub open spec fn int_text(i: int) -> Seq<char> {
    if i < 0 {
        seq!['-'] + nat_text((-i) as nat)
    } else {
        nat_text(i as nat)
    }
}

/// Appends one character to a string (`String::push`).
#[verifier::external_body]
pub(crate) fn push_char(s: &mut String, c: char)
    ensures
        final(s)@ == old(s)@.push(c),
{
    s.push(c);
}

/// Appends the characters of `v` in order.
pub fn push_chars(s: &mut String, v: &Vec<char>)
    ensures
        final(s)@ == old(s)@ + v@,
{
    let mut i: usize = 0;
    while i < v.len()
        invariant
            i <= v.len(),
            s@ == old(s)@ + v@.subrange(0, i as int),
        decreases v.len() - i,
    {
        push_char(s, v[i]);
        proof {
            assert(v@.subrange(0, i as int + 1) =~= v@.subrange(0, i as int).push(v@[i as int]));
        }
        i = i + 1;
    }
    assert(v@.subrange(0, v.len() as int) =~= v@);
}

proof fn lemma_nat_text_nonempty(n: nat)
    ensures
        nat_text(n).len() >= 1,
    decreases n,
{
    if n >= 10 {
        lemma_nat_text_nonempty(n / 10);
    }
}

/// Digits of `n` in reverse order (least significant first).
fn reversed_digits(n: u64) -> (r: Vec<char>)
    ensures
        r@.reverse() == nat_text(n as nat),
    decreases n,
{
    if n < 10 {
        let mut v: Vec<char> = Vec::new();
        let c = ((48 + n) as u8) as char;
        v.push(c);
        proof {
            assert(v@.reverse() =~= seq![digit_char(n as int)]);
        }
        v
    } else {
        let d = n % 10;
        let c = ((48 + d) as u8) as char;
        let rest = reversed_digits(n / 10);
        let mut v: Vec<char> = Vec::new();
        v.push(c);
        let mut i: usize = 0;
        while i < rest.len()
            invariant
                i <= rest.len(),
                v@ == seq![c] + rest@.subrange(0, i as int),
            decreases rest.len() - i,
        {
            v.push(rest[i]);
            proof {
                assert(rest@.subrange(0, i as int + 1) =~= rest@.subrange(0, i as int).push(rest@[i as int]));
            }
            i = i + 1;
        }
        proof {
            assert(rest@.subrange(0, rest.len() as int) =~= rest@);
            assert(v@.reverse() =~= rest@.reverse().push(c));
            assert(c == digit_char((n % 10) as int));
        }
        v
    }
}

/// Appends the decimal rendering of `n`.
pub fn push_u64(s: &mut String, n: u64)
    ensures
        final(s)@ == old(s)@ + nat_text(n as nat),
{
    let digits = reversed_digits(n);
    let mut i: usize = digits.len();
    while i > 0
        invariant
            i <= digits.len(),
            digits@.reverse() == nat_text(n as nat),
            s@ == old(s)@ + digits@.subrange(i as int, digits.len() as int).reverse(),
        decreases i,
    {
        i = i - 1;
        push_char(s, digits[i]);
        proof {
            assert(digits@.subrange(i as int, digits.len() as int).reverse() =~= digits@.subrange(
                i as int + 1,
                digits.len() as int,
            ).reverse().push(digits@[i as int]));
        }
    }
    assert(digits@.subrange(0, digits.len() as int) =~= digits@);
}

/// Appends the decimal rendering of `i`, with a `'-'` when it is negative.
pub fn push_i64(s: &mut String, i: i64)
    ensures
        final(s)@ == old(s)@ + int_text(i as int),
{
    if i < 0 {
        push_char(s, '-');
        let mag: u64 = ((-(i + 1)) as u64) + 1;
        push_u64(s, mag);
        assert(s@ =~= old(s)@ + int_text(i as int));
    } else {
        push_u64(s, i as u64);
    }
}

} // verus!

verus! {

/// The characters of `s`, in order.
pub fn chars_of(s: &str) -> (r: Vec<char>)
    ensures
        r@ == s@,
{
    broadcast use vstd::string::group_string_axioms;
    let mut v: Vec<char> = Vec::new();
    for c in it: s.chars()
        invariant
            v@ == it.seq().take(it.index() as int),
    {
        v.push(c);
        assert(v@ =~= it.seq().take(it.index() as int + 1));
    }
    assert(v@ =~= s@);
    v
}

} // verus!

verus! {

/// Appends the characters of `t`.
pub fn push_str(s: &mut String, t: &str)
    ensures
        final(s)@ == old(s)@ + t@,
{
    let v = chars_of(t);
    push_chars(s, &v);
}

/// Lexicographic order on character sequences, comparing characters by their
/// code points; this is the order of Rust's `Ord` for `str` and `String`
/// (UTF-8 preserves the order of code points).
pub open spec fn text_lt(a: Seq<char>, b: Seq<char>) -> bool
    decreases a.len(),
{
    if a.len() == 0 {
        b.len() > 0
    } else if b.len() == 0 {
        false
    } else if a[0] == b[0] {
        text_lt(a.drop_first(), b.drop_first())
    } else {
        (a[0] as int) < (b[0] as int)
    }
}

pub proof fn lemma_text_lt_irreflexive(a: Seq<char>)
    ensures
        !text_lt(a, a),
    decreases a.len(),
{
    if a.len() > 0 {
        lemma_text_lt_irreflexive(a.drop_first());
    }
}

pub proof fn lemma_text_lt_transitive(a: Seq<char>, b: Seq<char>, c: Seq<char>)
    requires
        text_lt(a, b),
        text_lt(b, c),
    ensures
        text_lt(a, c),
    decreases a.len(),
{
    if a.len() > 0 && b.len() > 0 && c.len() > 0 && a[0] == b[0] && b[0] == c[0] {
        lemma_text_lt_transitive(a.drop_first(), b.drop_first(), c.drop_first());
    }
}

pub proof fn lemma_text_lt_total(a: Seq<char>, b: Seq<char>)
    ensures
        a == b || text_lt(a, b) || text_lt(b, a),
    decreases a.len(),
{
    if a.len() > 0 && b.len() > 0 {
        if a[0] == b[0] {
            lemma_text_lt_total(a.drop_first(), b.drop_first());
            if a.drop_first() == b.drop_first() {
                assert(a =~= seq![a[0]] + a.drop_first());
                assert(b =~= seq![b[0]] + b.drop_first());
            }
        } else {
            assert((a[0] as int) != (b[0] as int));
        }
    } else if a.len() == 0 && b.len() == 0 {
        assert(a =~= b);
    }
}

/// Whether `a` comes strictly before `b` in the order of `text_lt`.
pub fn text_less(a: &Vec<char>, b: &Vec<char>) -> (r: bool)
    ensures
        r == text_lt(a@, b@),
{
    let mut i: usize = 0;
    assert(a@.skip(0) =~= a@);
    assert(b@.skip(0) =~= b@);
    while i < a.len() && i < b.len() && a[i] == b[i]
        invariant
            i <= a.len(),
            i <= b.len(),
            text_lt(a@, b@) == text_lt(a@.skip(i as int), b@.skip(i as int)),
        decreases a.len() - i,
    {
        proof {
            assert(a@.skip(i as int).drop_first() =~= a@.skip(i as int + 1));
            assert(b@.skip(i as int).drop_first() =~= b@.skip(i as int + 1));
        }
        i = i + 1;
    }
    if i == a.len() {
        i < b.len()
    } else if i == b.len() {
        false
    } else {
        let ca = a[i];
        let cb = b[i];
        assert(a@.skip(i as int)[0] == ca);
        assert(b@.skip(i as int)[0] == cb);
        assert(ca != cb);
        assert(text_lt(a@.skip(i as int), b@.skip(i as int)) == ((ca as int) < (cb as int)));
        ca < cb
    }
}

} // verus!

verus! {

/// The pieces of `s` between occurrences of `sep`, as `str::split` yields
/// them: `n` separators give `n + 1` pieces, some of which may be empty.
pub open spec fn split_text(s: Seq<char>, sep: char) -> Seq<Seq<char>>
    decreases s.len(),
{
    if s.len() == 0 {
        seq![seq![]]
    } else {
        let init = split_text(s.drop_last(), sep);
        if s.last() == sep {
            init.push(seq![])
        } else {
            init.update(init.len() - 1, init.last().push(s.last()))
        }
    }
}

pub proof fn lemma_split_text_nonempty(s: Seq<char>, sep: char)
    ensures
        split_text(s, sep).len() >= 1,
    decreases s.len(),
{
    if s.len() > 0 {
        lemma_split_text_nonempty(s.drop_last(), sep);
    }
}

/// A text without the separator is a single piece.
pub proof fn lemma_split_text_whole(b: Seq<char>, sep: char)
    requires
        !b.contains(sep),
    ensures
        split_text(b, sep) == seq![b],
    decreases b.len(),
{
    if b.len() == 0 {
        assert(b =~= Seq::<char>::empty());
    } else {
        let init = b.drop_last();
        assert(!init.contains(sep)) by {
            if init.contains(sep) {
                let k = choose|k: int| 0 <= k < init.len() && init[k] == sep;
                assert(b[k] == sep);
            }
        }
        lemma_split_text_whole(init, sep);
        assert(b[b.len() - 1] == b.last());
        assert(init.push(b.last()) =~= b);
    }
}

/// Splitting `p`, the separator and a piece `b` gives the pieces of `p`
/// followed by `b`.
pub proof fn lemma_split_text_join(p: Seq<char>, b: Seq<char>, sep: char)
    requires
        !b.contains(sep),
    ensures
        split_text(p + seq![sep] + b, sep) == split_text(p, sep).push(b),
    decreases b.len(),
{
    let s = p + seq![sep] + b;
    if b.len() == 0 {
        assert(s =~= p.push(sep));
        assert(s.drop_last() =~= p);
        assert(s.last() == sep);
        assert(b =~= Seq::<char>::empty());
    } else {
        let init = b.drop_last();
        assert(!init.contains(sep)) by {
            if init.contains(sep) {
                let k = choose|k: int| 0 <= k < init.len() && init[k] == sep;
                assert(b[k] == sep);
            }
        }
        lemma_split_text_join(p, init, sep);
        lemma_split_text_nonempty(p, sep);
        assert(s.drop_last() =~= p + seq![sep] + init);
        assert(b[b.len() - 1] == b.last());
        assert(s.last() == b.last());
        assert(init.push(b.last()) =~= b);
        assert(split_text(s, sep) =~= split_text(p, sep).push(b));
    }
}

/// No piece of a split holds the separator.
pub proof fn lemma_split_text_pieces(s: Seq<char>, sep: char)
    ensures
        forall|k: int| 0 <= k < split_text(s, sep).len() ==> !(#[trigger] split_text(s, sep)[k]).contains(sep),
    decreases s.len(),
{
    if s.len() > 0 {
        let init = split_text(s.drop_last(), sep);
        lemma_split_text_pieces(s.drop_last(), sep);
        lemma_split_text_nonempty(s.drop_last(), sep);
        if s.last() != sep {
            let last = init.last().push(s.last());
            assert(!last.contains(sep)) by {
                if last.contains(sep) {
                    let k = choose|k: int| 0 <= k < last.len() && last[k] == sep;
                    if k < last.len() - 1 {
                        assert(init.last()[k] == sep);
                        assert(init[init.len() - 1].contains(sep));
                    }
                }
            }
            let r = init.update(init.len() - 1, last);
            assert forall|k: int| 0 <= k < r.len() implies !(#[trigger] r[k]).contains(sep) by {
                if k < init.len() - 1 {
                    assert(r[k] == init[k]);
                }
            }
        } else {
            let r = init.push(seq![]);
            assert forall|k: int| 0 <= k < r.len() implies !(#[trigger] r[k]).contains(sep) by {
                if k < init.len() {
                    assert(r[k] == init[k]);
                }
            }
        }
    }
}

/// The views of a list of strings.
pub open spec fn strings_view(v: Seq<String>) -> Seq<Seq<char>> {
    v.map_values(|s: String| s@)
}

/// Splits `s` at every occurrence of `sep` (`str::split` with a `char`).
pub fn split_chars(s: &str, sep: char) -> (r: Vec<String>)
    ensures
        strings_view(r@) == split_text(s@, sep),
{
    let cs = chars_of(s);
    let mut pieces: Vec<String> = Vec::new();
    let mut cur = String::new();
    let mut k: usize = 0;
    assert(s@.take(0) =~= seq![]);
    assert(strings_view(pieces@).push(cur@) =~= split_text(s@.take(0), sep));
    while k < cs.len()
        invariant
            k <= cs.len(),
            cs@ == s@,
            strings_view(pieces@).push(cur@) == split_text(s@.take(k as int), sep),
        decreases cs.len() - k,
    {
        let c = cs[k];
        proof {
            assert(s@.take(k as int + 1).drop_last() =~= s@.take(k as int));
            assert(s@.take(k as int + 1).last() == c);
        }
        if c == sep {
            let done = cur;
            pieces.push(done);
            cur = String::new();
            proof {
                assert(strings_view(pieces@).push(cur@) =~= split_text(s@.take(k as int), sep).push(
                    seq![],
                ));
            }
        } else {
            let ghost before = cur@;
            push_char(&mut cur, c);
            proof {
                let init = split_text(s@.take(k as int), sep);
                assert(init.last() == before);
                assert(strings_view(pieces@).push(cur@) =~= init.update(
                    init.len() - 1,
                    init.last().push(c),
                ));
            }
        }
        k = k + 1;
    }
    pieces.push(cur);
    assert(s@.take(cs.len() as int) =~= s@);
    assert(strings_view(pieces@) =~= split_text(s@, sep));
    pieces
}

} // verus!

verus! {

/// `s` with every occurrence of `from` replaced by `to`, scanning left to
/// right without overlaps, as `str::replace` does; an empty `from` matches
/// before every character and at the end.
pub open spec fn replace_text(s: Seq<char>, from: Seq<char>, to: Seq<char>) -> Seq<char>
    decreases s.len(),
{
    if from.len() == 0 {
        if s.len() == 0 {
            to
        } else {
            to + seq![s[0]] + replace_text(s.drop_first(), from, to)
        }
    } else if s.len() < from.len() {
        s
    } else if s.take(from.len() as int) == from {
        to + replace_text(s.skip(from.len() as int), from, to)
    } else {
        seq![s[0]] + replace_text(s.drop_first(), from, to)
    }
}

/// Whether `pat` occurs in `s` at position `i`.
fn occurs_at(s: &Vec<char>, i: usize, pat: &Vec<char>) -> (r: bool)
    requires
        i + pat.len() <= s.len(),
    ensures
        r == (s@.skip(i as int).take(pat.len() as int) == pat@),
{
    let mut j: usize = 0;
    while j < pat.len()
        invariant
            j <= pat.len(),
            i + pat.len() <= s.len(),
            forall|q: int| 0 <= q < j ==> s@[i + q] == pat@[q],
        decreases pat.len() - j,
    {
        if s[i + j] != pat[j] {
            assert(s@.skip(i as int).take(pat.len() as int)[j as int] != pat@[j as int]);
            return false;
        }
        j = j + 1;
    }
    assert(s@.skip(i as int).take(pat.len() as int) =~= pat@);
    true
}

/// Replaces every occurrence of `from` in `s` by `to` (`str::replace`).
pub fn replace_all(s: &str, from: &str, to: &str) -> (r: String)
    ensures
        r@ == replace_text(s@, from@, to@),
{
    let cs = chars_of(s);
    let fs = chars_of(from);
    let mut out = String::new();
    let mut i: usize = 0;
    assert(s@.skip(0) =~= s@);
    if fs.len() == 0 {
        while i < cs.len()
            invariant
                i <= cs.len(),
                cs@ == s@,
                fs@ == from@,
                from@.len() == 0,
                replace_text(s@, from@, to@) == out@ + replace_text(s@.skip(i as int), from@, to@),
            decreases cs.len() - i,
        {
            let ghost before = out@;
            push_str(&mut out, to);
            push_char(&mut out, cs[i]);
            proof {
                let rest = s@.skip(i as int);
                assert(rest[0] == cs@[i as int]);
                assert(rest.drop_first() =~= s@.skip(i as int + 1));
                assert(out@ =~= before + to@ + seq![cs@[i as int]]);
            }
            i = i + 1;
        }
        assert(s@.skip(i as int) =~= seq![]);
        push_str(&mut out, to);
    } else {
        while i < cs.len()
            invariant
                i <= cs.len(),
                cs@ == s@,
                fs@ == from@,
                from@.len() > 0,
                replace_text(s@, from@, to@) == out@ + replace_text(s@.skip(i as int), from@, to@),
            decreases cs.len() - i,
        {
            let ghost before = out@;
            let ghost rest = s@.skip(i as int);
            if cs.len() - i >= fs.len() && occurs_at(&cs, i, &fs) {
                push_str(&mut out, to);
                proof {
                    assert(rest.take(from@.len() as int) == from@);
                    assert(rest.skip(from@.len() as int) =~= s@.skip(i + from@.len()));
                }
                i = i + fs.len();
            } else {
                push_char(&mut out, cs[i]);
                proof {
                    assert(rest[0] == cs@[i as int]);
                    assert(rest.drop_first() =~= s@.skip(i as int + 1));
                    if rest.len() < from@.len() {
                        assert(rest =~= seq![rest[0]] + rest.drop_first());
                        assert(replace_text(rest.drop_first(), from@, to@) == rest.drop_first());
                    }
                }
                i = i + 1;
            }
        }
        assert(s@.skip(i as int) =~= seq![]);
    }
    assert(out@ =~= replace_text(s@, from@, to@));
    out
}

} // verus!

verus! {

/// Whether two strings hold the same characters.
pub fn text_eq(a: &str, b: &str) -> (r: bool)
    ensures
        r == (a@ == b@),
{
    let x = chars_of(a);
    let y = chars_of(b);
    if x.len() != y.len() {
        assert(a@.len() != b@.len());
        return false;
    }
    let mut i: usize = 0;
    while i < x.len()
        invariant
            i <= x.len(),
            x.len() == y.len(),
            x@ == a@,
            y@ == b@,
            forall|j: int| 0 <= j < i ==> x@[j] == y@[j],
        decreases x.len() - i,
    {
        if x[i] != y[i] {
            assert(a@[i as int] != b@[i as int]);
            return false;
        }
        i = i + 1;
    }
    assert(x@ =~= y@);
    true
}

/// A string holding `t`.
pub fn text_of(t: &str) -> (r: String)
    ensures
        r@ == t@,
{
    let mut s = String::new();
    push_str(&mut s, t);
    assert(s@ =~= t@);
    s
}

} // verus!
