//! Character sequences: conversion to and from strings, comparison,
//! splitting, and decimal rendering.
use vstd::prelude::*;
use vstd::std_specs::iter::IteratorSpec;

verus! {

/// Splits `s` at every occurrence of `sep`; the result always has at least
/// one part, and the number of parts is one more than the number of separators.
pub open spec fn split_on(s: Seq<char>, sep: char) -> Seq<Seq<char>>
    decreases s.len(),
{
    if s.len() == 0 {
        seq![Seq::<char>::empty()]
    } else {
        let r = split_on(s.drop_last(), sep);
        if s.last() == sep {
            r.push(Seq::<char>::empty())
        } else {
            r.update(r.len() - 1, r.last().push(s.last()))
        }
    }
}

pub proof fn lemma_split_on_nonempty(s: Seq<char>, sep: char)
    ensures
        split_on(s, sep).len() >= 1,
    decreases s.len(),
{
    if s.len() > 0 {
        lemma_split_on_nonempty(s.drop_last(), sep);
    }
}

/// Cutting at a separator that joins `a` and `u` gives the parts of `a`
/// followed by the parts of `u`.
pub proof fn lemma_split_on_join(a: Seq<char>, u: Seq<char>, sep: char)
    ensures
        split_on(a + seq![sep] + u, sep) == split_on(a, sep) + split_on(u, sep),
    decreases u.len(),
{
    let s = a + seq![sep] + u;
    if u.len() == 0 {
        assert(s.drop_last() =~= a);
        assert(split_on(a, sep).push(Seq::<char>::empty()) =~= split_on(a, sep) + split_on(u, sep));
    } else {
        assert(s.drop_last() =~= a + seq![sep] + u.drop_last());
        lemma_split_on_join(a, u.drop_last(), sep);
        lemma_split_on_nonempty(u.drop_last(), sep);
        let x = split_on(a, sep);
        let y = split_on(u.drop_last(), sep);
        if u.last() == sep {
            assert((x + y).push(Seq::<char>::empty()) =~= x + y.push(Seq::<char>::empty()));
        } else {
            assert((x + y).update((x + y).len() - 1, (x + y).last().push(u.last())) =~= x + y.update(
                y.len() - 1,
                y.last().push(u.last()),
            ));
        }
    }
}

/// Returns the characters of `s`.
pub fn chars_of(s: &str) -> (r: Vec<char>)
    ensures
        r@ == s@,
{
    let mut out: Vec<char> = Vec::new();
    for c in it: s.chars()
        invariant
            it.seq() == s@,
            out@ == it.seq().take(it.index() as int),
    {
        out.push(c);
    }
    proof {
        assert(out@ =~= s@);
    }
    out
}

/// Relies on `FromIterator<&char>` for `String`: the string holds the
/// characters in order.
#[verifier::external_body]
pub(crate) fn string_of(v: &[char]) -> (r: String)
    ensures
        r@ == v@,
{
    v.iter().collect()
}

/// The first position of `key` in `keys`, or -1 where it does not occur.
pub open spec fn first_index<T>(keys: Seq<T>, key: T) -> int
    decreases keys.len(),
{
    if keys.len() == 0 {
        -1
    } else {
        let r = first_index(keys.drop_last(), key);
        if r >= 0 {
            r
        } else if keys.last() == key {
            keys.len() - 1
        } else {
            -1
        }
    }
}

pub proof fn lemma_first_index_absent<T>(keys: Seq<T>, key: T)
    requires
        forall|t: int| 0 <= t < keys.len() ==> keys[t] != key,
    ensures
        first_index(keys, key) == -1,
    decreases keys.len(),
{
    if keys.len() > 0 {
        lemma_first_index_absent(keys.drop_last(), key);
    }
}

pub proof fn lemma_first_index_at<T>(keys: Seq<T>, key: T, idx: int)
    requires
        0 <= idx < keys.len(),
        keys[idx] == key,
        forall|t: int| 0 <= t < idx ==> keys[t] != key,
    ensures
        first_index(keys, key) == idx,
    decreases keys.len(),
{
    if idx == keys.len() - 1 {
        lemma_first_index_absent(keys.drop_last(), key);
    } else {
        lemma_first_index_at(keys.drop_last(), key, idx);
    }
}

pub proof fn lemma_first_index_range<T>(keys: Seq<T>, key: T)
    ensures
        first_index(keys, key) == -1 || (0 <= first_index(keys, key) < keys.len()
            && keys[first_index(keys, key)] == key),
    decreases keys.len(),
{
    if keys.len() > 0 {
        lemma_first_index_range(keys.drop_last(), key);
    }
}

/// Whether `a` and `b` hold the same characters.
pub fn eq_chars(a: &[char], b: &[char]) -> (r: bool)
    ensures
        r == (a@ == b@),
{
    if a.len() != b.len() {
        return false;
    }
    let mut i: usize = 0;
    while i < a.len()
        invariant
            a.len() == b.len(),
            i <= a.len(),
            a@.take(i as int) == b@.take(i as int),
        decreases a.len() - i,
    {
        if a[i] != b[i] {
            assert(a@[i as int] != b@[i as int]);
            return false;
        }
        assert(a@.take(i + 1) =~= a@.take(i as int).push(a@[i as int]));
        assert(b@.take(i + 1) =~= b@.take(i as int).push(b@[i as int]));
        i = i + 1;
    }
    assert(a@ =~= a@.take(i as int));
    assert(b@ =~= b@.take(i as int));
    true
}

/// The character sequences held by `v`.
pub open spec fn views(v: Seq<Vec<char>>) -> Seq<Seq<char>> {
    v.map_values(|x: Vec<char>| x@)
}

/// Splits `s` at every `sep`.
pub fn split_chars(s: &[char], sep: char) -> (r: Vec<Vec<char>>)
    ensures
        views(r@) == split_on(s@, sep),
{
    let mut done: Vec<Vec<char>> = Vec::new();
    let mut cur: Vec<char> = Vec::new();
    let mut i: usize = 0;
    while i < s.len()
        invariant
            i <= s.len(),
            views(done@).push(cur@) == split_on(s@.take(i as int), sep),
        decreases s.len() - i,
    {
        let c = s[i];
        proof {
            assert(s@.take(i + 1).drop_last() =~= s@.take(i as int));
        }
        if c == sep {
            let ghost before = views(done@);
            done.push(cur);
            cur = Vec::new();
            proof {
                assert(views(done@) =~= before.push(done@.last()@));
            }
        } else {
            let ghost before = views(done@);
            cur.push(c);
            proof {
                assert(views(done@) =~= before);
            }
        }
        i = i + 1;
        proof {
            assert(views(done@).push(cur@) =~= split_on(s@.take(i as int), sep));
        }
    }
    let ghost before = views(done@);
    done.push(cur);
    proof {
        assert(s@.take(i as int) =~= s@);
        assert(views(done@) =~= before.push(done@.last()@));
    }
    done
}

/// A fresh copy of `s`.
pub fn copy_chars(s: &[char]) -> (r: Vec<char>)
    ensures
        r@ == s@,
{
    let mut out: Vec<char> = Vec::new();
    let mut i: usize = 0;
    while i < s.len()
        invariant
            i <= s.len(),
            out@ == s@.take(i as int),
        decreases s.len() - i,
    {
        out.push(s[i]);
        i = i + 1;
        proof {
            assert(out@ =~= s@.take(i as int));
        }
    }
    proof {
        assert(out@ =~= s@);
    }
    out
}

/// Appends the characters of `s` to `out`.
pub fn push_all(out: &mut Vec<char>, s: &[char])
    ensures
        final(out)@ == old(out)@ + s@,
{
    let mut i: usize = 0;
    while i < s.len()
        invariant
            i <= s.len(),
            out@ == old(out)@ + s@.take(i as int),
        decreases s.len() - i,
    {
        out.push(s[i]);
        i = i + 1;
        proof {
            assert(s@.take(i as int) =~= s@.take(i - 1).push(s@[i - 1]));
        }
    }
    proof {
        assert(s@.take(i as int) =~= s@);
    }
}

/// The decimal digit character for `d`, which is below ten.
pub open spec fn digit(d: nat) -> char {
    if d == 0 { '0' }
    else if d == 1 { '1' }
    else if d == 2 { '2' }
    else if d == 3 { '3' }
    else if d == 4 { '4' }
    else if d == 5 { '5' }
    else if d == 6 { '6' }
    else if d == 7 { '7' }
    else if d == 8 { '8' }
    else { '9' }
}

/// The decimal rendering of `n`, without leading zeros.
pub open spec fn decimal(n: nat) -> Seq<char>
    decreases n,
{
    if n < 10 {
        seq![digit(n)]
    } else {
        decimal(n / 10).push(digit(n % 10))
    }
}

fn digit_char(d: usize) -> (r: char)
    requires
        d < 10,
    ensures
        r == digit(d as nat),
{
    if d == 0 { '0' }
    else if d == 1 { '1' }
    else if d == 2 { '2' }
    else if d == 3 { '3' }
    else if d == 4 { '4' }
    else if d == 5 { '5' }
    else if d == 6 { '6' }
    else if d == 7 { '7' }
    else if d == 8 { '8' }
    else { '9' }
}

/// Renders `n` in decimal.
pub fn decimal_chars(n: usize) -> (r: Vec<char>)
    ensures
        r@ == decimal(n as nat),
{
    let mut m: usize = n;
    let mut out: Vec<char> = Vec::new();
    loop
        invariant
            decimal(n as nat) == decimal(m as nat) + out@,
        decreases m,
    {
        let d = digit_char(m % 10);
        let ghost before = out@;
        out.insert(0, d);
        if m < 10 {
            proof {
                assert(out@ =~= seq![d] + before);
                assert(decimal(m as nat) + before =~= out@);
            }
            return out;
        }
        proof {
            assert(out@ =~= seq![d] + before);
            assert(decimal(m as nat) == decimal((m / 10) as nat).push(digit((m % 10) as nat)));
            assert(decimal(m as nat) + before =~= decimal((m / 10) as nat) + out@);
        }
        m = m / 10;
    }
}

} // verus!
