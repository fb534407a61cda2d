//! Conversions between string types and character sequences, and splitting of text.
use vstd::prelude::*;

verus! {

broadcast use vstd::string::group_string_axioms;

/// Appends one character to a string (`String::push`).
#[verifier::external_body]
pub fn push_char(s: &mut String, c: char)
    ensures
        final(s)@ == old(s)@.push(c),
{
    s.push(c);
}

/// Appends the characters of `t` to `s`
pub fn append_str(s: &mut String, t: &str)
    ensures
        final(s)@ == old(s)@ + t@,
{
    let cs = chars_of(t);
    let mut i: usize = 0;
    while i < cs.len()
        invariant
            i <= cs@.len(),
            cs@ == t@,
            s@ == old(s)@ + cs@.take(i as int),
        decreases cs@.len() - i,
    {
        push_char(s, cs[i]);
        assert(cs@.take(i + 1) =~= cs@.take(i as int).push(cs@[i as int]));
        i += 1;
    }
    assert(cs@.take(cs@.len() as int) =~= cs@);
}

/// Whether two string slices hold the same characters
pub fn str_eq(a: &str, b: &str) -> (r: bool)
    ensures
        r == (a@ == b@),
{
    let a1: String = a.to_owned();
    let b1: String = b.to_owned();
    a1 == b1
}

/// The characters of a string slice, in order.
pub fn chars_of(s: &str) -> (v: Vec<char>)
    ensures
        v@ == s@,
{
    let mut v: Vec<char> = Vec::new();
    for c in it: s.chars()
        invariant
            v@ == it.seq().take(it.index()),
            it.seq() == s@,
    {
        v.push(c);
    }
    v
}

/// A string holding the given characters.
pub fn string_of(cs: &[char]) -> (s: String)
    ensures
        s@ == cs@,
{
    let mut s = String::new();
    let mut i: usize = 0;
    while i < cs.len()
        invariant
            i <= cs@.len(),
            s@ == cs@.take(i as int),
        decreases cs@.len() - i,
    {
        push_char(&mut s, cs[i]);
        i += 1;
        assert(cs@.take(i as int) == cs@.take((i - 1) as int).push(cs@[i - 1]));
    }
    assert(cs@.take(cs@.len() as int) == cs@);
    s
}

/// A string holding the characters `cs[from..to]`.
pub fn string_of_range(cs: &[char], from: usize, to: usize) -> (s: String)
    requires
        from <= to <= cs@.len(),
    ensures
        s@ == cs@.subrange(from as int, to as int),
{
    let mut s = String::new();
    let mut i: usize = from;
    while i < to
        invariant
            from <= i <= to <= cs@.len(),
            s@ == cs@.subrange(from as int, i as int),
        decreases to - i,
    {
        push_char(&mut s, cs[i]);
        i += 1;
        assert(cs@.subrange(from as int, i as int) == cs@.subrange(from as int, i - 1).push(
            cs@[i - 1],
        ));
    }
    s
}

/// The pieces of `s` between occurrences of `sep` (as `str::split` yields them)
pub open spec fn split_on(s: Seq<char>, sep: char) -> Seq<Seq<char>>
    decreases s.len(),
{
    if s.len() == 0 {
        seq![Seq::empty()]
    } else {
        let rest = split_on(s.drop_last(), sep);
        if s.last() == sep {
            rest.push(Seq::empty())
        } else {
            rest.update(rest.len() - 1, rest.last().push(s.last()))
        }
    }
}

/// There is always at least one piece
pub proof fn lemma_split_on_nonempty(s: Seq<char>, sep: char)
    ensures
        split_on(s, sep).len() >= 1,
    decreases s.len(),
{
    if s.len() > 0 {
        lemma_split_on_nonempty(s.drop_last(), sep);
    }
}

/// No piece holds the separator
pub proof fn lemma_split_on_pieces(s: Seq<char>, sep: char)
    ensures
        forall|i: int, j: int|
            0 <= i < split_on(s, sep).len() && 0 <= j < split_on(s, sep)[i].len() ==> #[trigger] split_on(
                s,
                sep,
            )[i][j] != sep,
    decreases s.len(),
{
    if s.len() > 0 {
        lemma_split_on_pieces(s.drop_last(), sep);
        lemma_split_on_nonempty(s.drop_last(), sep);
        let rest = split_on(s.drop_last(), sep);
        if s.last() != sep {
            let r = split_on(s, sep);
            assert forall|i: int, j: int| 0 <= i < r.len() && 0 <= j < r[i].len() implies #[trigger] r[i][j]
                != sep by {
                if i == rest.len() - 1 && j == rest.last().len() {
                } else {
                    assert(r[i][j] == rest[i][j]);
                }
            }
        }
    }
}

/// Text that ends with a run free of the separator: the run extends the last piece
pub proof fn lemma_split_on_tail(a: Seq<char>, b: Seq<char>, sep: char)
    requires
        forall|j: int| 0 <= j < b.len() ==> b[j] != sep,
    ensures
        split_on(a + b, sep) == split_on(a, sep).update(
            split_on(a, sep).len() - 1,
            split_on(a, sep).last() + b,
        ),
    decreases b.len(),
{
    lemma_split_on_nonempty(a, sep);
    let r = split_on(a, sep);
    if b.len() == 0 {
        assert(a + b =~= a);
        assert(r.last() + b =~= r.last());
        assert(r.update(r.len() - 1, r.last() + b) =~= r);
    } else {
        let b0 = b.drop_last();
        lemma_split_on_tail(a, b0, sep);
        assert((a + b).drop_last() =~= a + b0);
        assert((a + b).last() == b.last());
        assert((r.last() + b0).push(b.last()) =~= r.last() + b);
        assert(split_on(a + b, sep) =~= r.update(r.len() - 1, r.last() + b));
    }
}

/// The views of a sequence of strings
pub open spec fn strings_view(v: Seq<String>) -> Seq<Seq<char>> {
    v.map_values(|s: String| s@)
}

/// Splits `s` at every occurrence of `sep`
pub fn split_chars(s: &[char], sep: char) -> (r: Vec<String>)
    ensures
        strings_view(r@) == split_on(s@, sep),
{
    let mut parts: Vec<String> = Vec::new();
    parts.push(String::new());
    let mut i: usize = 0;
    assert(strings_view(parts@) =~= split_on(s@.take(0), sep));
    while i < s.len()
        invariant
            i <= s@.len(),
            parts@.len() >= 1,
            strings_view(parts@) == split_on(s@.take(i as int), sep),
        decreases s@.len() - i,
    {
        let c = s[i];
        let ghost prev = strings_view(parts@);
        assert(s@.take(i + 1).drop_last() =~= s@.take(i as int));
        if c == sep {
            parts.push(String::new());
            assert(strings_view(parts@) =~= prev.push(Seq::empty()));
        } else {
            let last = parts.len() - 1;
            let mut piece = parts.remove(last);
            push_char(&mut piece, c);
            parts.push(piece);
            assert(strings_view(parts@) =~= prev.update(prev.len() - 1, prev.last().push(c)));
        }
        i += 1;
    }
    assert(s@.take(s@.len() as int) =~= s@);
    parts
}

/// The decimal digits of a number
pub open spec fn decimal_spec(n: nat) -> Seq<char>
    decreases n,
{
    if n < 10 {
        seq![digit_char(n)]
    } else {
        decimal_spec(n / 10).push(digit_char(n % 10))
    }
}

/// The character of a decimal digit
pub open spec fn digit_char(d: nat) -> char {
    if d == 0 { '0' } else if d == 1 { '1' } else if d == 2 { '2' } else if d == 3 { '3' }
    else if d == 4 { '4' } else if d == 5 { '5' } else if d == 6 { '6' } else if d == 7 { '7' }
    else if d == 8 { '8' } else { '9' }
}

/// The character of a decimal digit
fn digit(d: usize) -> (c: char)
    requires
        d < 10,
    ensures
        c == digit_char(d as nat),
{
    if d == 0 { '0' } else if d == 1 { '1' } else if d == 2 { '2' } else if d == 3 { '3' }
    else if d == 4 { '4' } else if d == 5 { '5' } else if d == 6 { '6' } else if d == 7 { '7' }
    else if d == 8 { '8' } else { '9' }
}

/// The decimal form of a number
pub fn decimal(n: usize) -> (r: String)
    ensures
        r@ == decimal_spec(n as nat),
    decreases n,
{
    if n < 10 {
        let mut s = String::new();
        push_char(&mut s, digit(n));
        assert(s@ =~= seq![digit_char(n as nat)]);
        s
    } else {
        let mut s = decimal(n / 10);
        push_char(&mut s, digit(n % 10));
        s
    }
}

} // verus!
