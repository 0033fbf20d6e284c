//! Text: order, prefixes and suffixes, decimal numbers, dot-delimited paths.

use vstd::prelude::*;
use vstd::std_specs::iter::IteratorSpec;

verus! {

/// Whether `a` comes before `b`: at the first place where they differ `a` has the smaller
/// character, or `a` is a proper prefix of `b`. This is also the order of the UTF-8 bytes.
pub open spec fn precedes(a: Seq<char>, b: Seq<char>) -> bool
    decreases a.len(),
{
    if b.len() == 0 {
        false
    } else if a.len() == 0 {
        true
    } else if a[0] == b[0] {
        precedes(a.drop_first(), b.drop_first())
    } else {
        a[0] < b[0]
    }
}

/// No text comes before itself.
pub proof fn lemma_precedes_irreflexive(a: Seq<char>)
    ensures
        !precedes(a, a),
    decreases a.len(),
{
    if a.len() > 0 {
        lemma_precedes_irreflexive(a.drop_first());
    }
}

/// The order is transitive.
pub proof fn lemma_precedes_transitive(a: Seq<char>, b: Seq<char>, c: Seq<char>)
    requires
        precedes(a, b),
        precedes(b, c),
    ensures
        precedes(a, c),
    decreases a.len(),
{
    if a.len() > 0 && a[0] == b[0] && b[0] == c[0] {
        lemma_precedes_transitive(a.drop_first(), b.drop_first(), c.drop_first());
    }
}

/// Of two different texts one comes before the other.
pub proof fn lemma_precedes_total(a: Seq<char>, b: Seq<char>)
    ensures
        a == b || precedes(a, b) || precedes(b, a),
    decreases a.len(),
{
    if a.len() == 0 || b.len() == 0 {
        if a.len() == 0 && b.len() == 0 {
            assert(a =~= b);
        }
    } else if a[0] == b[0] {
        lemma_precedes_total(a.drop_first(), b.drop_first());
        if a.drop_first() == b.drop_first() {
            assert(a =~= seq![a[0]] + a.drop_first());
            assert(b =~= seq![b[0]] + b.drop_first());
        }
    }
}

/// Where one text stands relative to another.
#[derive(Clone, Copy, PartialEq, Eq, Structural, Debug)]
pub enum Place {
    Before,
    Same,
    After,
}

/// Places `a` relative to `b`.
pub fn place(a: &str, b: &str) -> (r: Place)
    ensures
        r == Place::Before <==> precedes(a@, b@),
        r == Place::Same <==> a@ == b@,
        r == Place::After <==> precedes(b@, a@),
{
    proof {
        lemma_precedes_total(a@, b@);
        lemma_precedes_irreflexive(a@);
        if precedes(a@, b@) && precedes(b@, a@) {
            lemma_precedes_transitive(a@, b@, a@);
        }
    }
    let mut x = a.chars();
    let mut y = b.chars();
    loop
        invariant
            precedes(a@, b@) == precedes(x.remaining(), y.remaining()),
            precedes(b@, a@) == precedes(y.remaining(), x.remaining()),
            (a@ == b@) == (x.remaining() == y.remaining()),
            x.decrease() is Some,
        decreases x.decrease()->0,
    {
        let ghost xs = x.remaining();
        let ghost ys = y.remaining();
        let c = x.next();
        let d = y.next();
        match (c, d) {
            (Some(c), Some(d)) => {
                if c < d {
                    return Place::Before;
                }
                if d < c {
                    return Place::After;
                }
                proof {
                    assert(xs =~= seq![xs[0]] + xs.drop_first());
                    assert(ys =~= seq![ys[0]] + ys.drop_first());
                }
            },
            (Some(_), None) => {
                return Place::After;
            },
            (None, Some(_)) => {
                return Place::Before;
            },
            (None, None) => {
                assert(xs =~= ys);
                return Place::Same;
            },
        }
    }
}

/// Whether two texts are equal.
pub fn same_text(a: &str, b: &str) -> (r: bool)
    ensures
        r == (a@ == b@),
{
    matches!(place(a, b), Place::Same)
}

/// The characters of a text.
pub fn characters(text: &str) -> (r: Vec<char>)
    ensures
        r@ == text@,
{
    let mut r: Vec<char> = Vec::new();
    let mut rest = text.chars();
    loop
        invariant
            r@ + rest.remaining() == text@,
            rest.decrease() is Some,
        decreases rest.decrease()->0,
    {
        let ghost before = rest.remaining();
        match rest.next() {
            Some(c) => {
                assert(r@ + before =~= r@.push(c) + before.drop_first());
                r.push(c);
            },
            None => {
                assert(r@ + before =~= r@);
                return r;
            },
        }
    }
}

/// `text` without the prefix, if it has it.
pub fn strip_prefix<'a>(text: &'a str, prefix: &str) -> (r: Option<&'a str>)
    ensures
        r is Some <==> prefix@.is_prefix_of(text@),
        r matches Some(rest) ==> text@ == prefix@ + rest@,
{
    let t = characters(text);
    let p = characters(prefix);
    if p.len() > t.len() {
        return None;
    }
    let mut i: usize = 0;
    while i < p.len()
        invariant
            t@ == text@,
            p@ == prefix@,
            i <= p.len() <= t.len(),
            forall|k: int| 0 <= k < i ==> t[k] == p[k],
        decreases p.len() - i,
    {
        if t[i] != p[i] {
            assert(text@.subrange(0, prefix@.len() as int)[i as int] != prefix@[i as int]);
            return None;
        }
        i = i + 1;
    }
    let rest = text.substring_char(p.len(), t.len());
    assert(text@ =~= prefix@ + rest@);
    Some(rest)
}

/// `text` without the suffix, if it has it.
pub fn strip_suffix<'a>(text: &'a str, suffix: &str) -> (r: Option<&'a str>)
    ensures
        r is Some <==> suffix@.is_suffix_of(text@),
        r matches Some(rest) ==> text@ == rest@ + suffix@,
{
    let t = characters(text);
    let p = characters(suffix);
    if p.len() > t.len() {
        return None;
    }
    let start: usize = t.len() - p.len();
    let mut i: usize = 0;
    while i < p.len()
        invariant
            t@ == text@,
            p@ == suffix@,
            i <= p.len() <= t.len(),
            start == t.len() - p.len(),
            forall|k: int| 0 <= k < i ==> t[start + k] == p[k],
        decreases p.len() - i,
    {
        if t[start + i] != p[i] {
            assert(text@.subrange(start as int, text@.len() as int)[i as int] != suffix@[i as int]);
            return None;
        }
        i = i + 1;
    }
    assert(text@.subrange(start as int, text@.len() as int) =~= suffix@);
    let rest = text.substring_char(0, start);
    assert(text@ =~= rest@ + suffix@);
    Some(rest)
}

/// The decimal digit for a number below ten.
pub open spec fn digit(n: nat) -> Seq<char> {
    if n == 0 {
        "0"@
    } else if n == 1 {
        "1"@
    } else if n == 2 {
        "2"@
    } else if n == 3 {
        "3"@
    } else if n == 4 {
        "4"@
    } else if n == 5 {
        "5"@
    } else if n == 6 {
        "6"@
    } else if n == 7 {
        "7"@
    } else if n == 8 {
        "8"@
    } else {
        "9"@
    }
}

/// A number in decimal, without leading zeros.
pub open spec fn decimal(n: nat) -> Seq<char>
    decreases n,
{
    if n < 10 {
        digit(n)
    } else {
        decimal(n / 10) + digit(n % 10)
    }
}

/// Appends a number in decimal.
pub fn push_decimal(out: &mut String, n: u64)
    ensures
        final(out)@ == old(out)@ + decimal(n as nat),
    decreases n,
{
    if n >= 10 {
        push_decimal(out, n / 10);
    }
    let last = n % 10;
    let text = if last == 0 {
        "0"
    } else if last == 1 {
        "1"
    } else if last == 2 {
        "2"
    } else if last == 3 {
        "3"
    } else if last == 4 {
        "4"
    } else if last == 5 {
        "5"
    } else if last == 6 {
        "6"
    } else if last == 7 {
        "7"
    } else if last == 8 {
        "8"
    } else {
        "9"
    };
    out.append(text);
    assert(out@ =~= old(out)@ + decimal(n as nat));
}

/// Texts in a row, with a separator between each two.
pub open spec fn joined(parts: Seq<Seq<char>>, separator: Seq<char>) -> Seq<char>
    decreases parts.len(),
{
    if parts.len() == 0 {
        Seq::empty()
    } else if parts.len() == 1 {
        parts[0]
    } else {
        joined(parts.drop_last(), separator) + separator + parts.last()
    }
}

/// The texts that strings hold.
pub open spec fn texts(strings: Seq<String>) -> Seq<Seq<char>> {
    Seq::new(strings.len(), |i: int| strings[i]@)
}

/// The texts that string slices hold.
pub open spec fn plain(strings: Seq<&str>) -> Seq<Seq<char>> {
    Seq::new(strings.len(), |i: int| strings[i]@)
}

/// Joins strings with a separator.
pub fn join(strings: &[String], separator: &str) -> (r: String)
    ensures
        r@ == joined(texts(strings@), separator@),
{
    let mut r = String::new();
    let ghost all = texts(strings@);
    for i in 0..strings.len()
        invariant
            all == texts(strings@),
            r@ == joined(all.take(i as int), separator@),
    {
        if i > 0 {
            r.append(separator);
        }
        r.append(strings[i].as_str());
        assert(all.take(i + 1).drop_last() =~= all.take(i as int));
        assert(r@ =~= joined(all.take(i + 1), separator@));
    }
    assert(all.take(all.len() as int) =~= all);
    r
}

/// Numbers in decimal with a separator between each two.
pub open spec fn joined_decimals(numbers: Seq<usize>, separator: Seq<char>) -> Seq<char> {
    joined(Seq::new(numbers.len(), |i: int| decimal(numbers[i] as nat)), separator)
}

/// Appends numbers in decimal with a separator between each two.
pub fn push_decimals(out: &mut String, numbers: &[usize], separator: &str)
    ensures
        final(out)@ == old(out)@ + joined_decimals(numbers@, separator@),
{
    let ghost all = Seq::new(numbers@.len(), |i: int| decimal(numbers@[i] as nat));
    let ghost start = out@;
    assert(out@ =~= start + joined(all.take(0), separator@));
    for i in 0..numbers.len()
        invariant
            all == Seq::new(numbers@.len(), |i: int| decimal(numbers@[i] as nat)),
            out@ == start + joined(all.take(i as int), separator@),
    {
        if i > 0 {
            out.append(separator);
        }
        push_decimal(out, numbers[i] as u64);
        assert(all.take(i + 1).drop_last() =~= all.take(i as int));
        assert(out@ =~= start + joined(all.take(i + 1), separator@));
    }
    assert(all.take(all.len() as int) =~= all);
}

} // verus!
