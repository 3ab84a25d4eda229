//! Character-level helpers on string slices: equality, splitting on a
//! separator and line splitting.
use vstd::prelude::*;

verus! {

/// Whether two string slices hold the same characters.
pub fn str_eq(a: &str, b: &str) -> (r: bool)
    ensures
        r == (a@ == b@),
{
    let n = a.unicode_len();
    let m = b.unicode_len();
    if n != m {
        return false;
    }
    let mut i: usize = 0;
    while i < n
        invariant
            n == a@.len(),
            m == b@.len(),
            n == m,
            i <= n,
            forall|j: int| 0 <= j < i ==> a@[j] == b@[j],
        decreases n - i,
    {
        if a.get_char(i) != b.get_char(i) {
            return false;
        }
        i = i + 1;
    }
    assert(a@ =~= b@);
    true
}

/// The fields of `s` between occurrences of `sep`, left to right. There is
/// always at least one field: the empty text has one empty field.
pub open spec fn split_seq(s: Seq<char>, sep: char) -> Seq<Seq<char>>
    decreases s.len(),
{
    if s.len() == 0 {
        seq![Seq::<char>::empty()]
    } else {
        let rest = split_seq(s.drop_last(), sep);
        if s.last() == sep {
            rest.push(Seq::<char>::empty())
        } else {
            rest.update(rest.len() - 1, rest.last().push(s.last()))
        }
    }
}

pub proof fn lemma_split_seq_nonempty(s: Seq<char>, sep: char)
    ensures
        split_seq(s, sep).len() >= 1,
    decreases s.len(),
{
    if s.len() > 0 {
        lemma_split_seq_nonempty(s.drop_last(), sep);
    }
}

/// The views of a sequence of string slices.
pub open spec fn strs_view(v: Seq<&str>) -> Seq<Seq<char>> {
    v.map_values(|x: &str| x@)
}

/// Splits `s` at every `sep`.
pub fn split_on<'a>(s: &'a str, sep: char) -> (r: Vec<&'a str>)
    ensures
        strs_view(r@) == split_seq(s@, sep),
{
    let n = s.unicode_len();
    let mut fields: Vec<&'a str> = Vec::new();
    let mut start: usize = 0;
    let mut i: usize = 0;
    assert(s@.take(0) =~= Seq::<char>::empty());
    assert(strs_view(fields@) =~= Seq::<Seq<char>>::empty());
    assert(strs_view(fields@).push(s@.subrange(0, 0)) =~= split_seq(s@.take(0), sep));
    while i < n
        invariant
            n == s@.len(),
            start <= i <= n,
            split_seq(s@.take(i as int), sep) == strs_view(fields@).push(
                s@.subrange(start as int, i as int),
            ),
        decreases n - i,
    {
        let c = s.get_char(i);
        let ghost prev = fields@;
        proof {
            assert(s@.take(i + 1).drop_last() =~= s@.take(i as int));
            assert(s@.take(i + 1).last() == c);
        }
        if c == sep {
            let field = s.substring_char(start, i);
            fields.push(field);
            start = i + 1;
            assert(strs_view(fields@) =~= strs_view(prev).push(field@));
            assert(s@.subrange(start as int, i + 1) =~= Seq::<char>::empty());
        } else {
            assert(s@.subrange(start as int, i + 1) =~= s@.subrange(start as int, i as int).push(c));
        }
        i = i + 1;
    }
    let last = s.substring_char(start, n);
    fields.push(last);
    assert(s@.take(n as int) =~= s@);
    assert(strs_view(fields@) =~= split_seq(s@, sep));
    fields
}

/// The ASCII lower-case form of `c`: `'A'..='Z'` become `'a'..='z'`, every
/// other character is kept.
pub open spec fn ascii_lower(c: char) -> char {
    if 'A' <= c && c <= 'Z' {
        ((c as u32) + 32) as char
    } else {
        c
    }
}

/// The ASCII upper-case form of `c`: `'a'..='z'` become `'A'..='Z'`, every
/// other character is kept.
pub open spec fn ascii_upper(c: char) -> char {
    if 'a' <= c && c <= 'z' {
        ((c as u32) - 32) as char
    } else {
        c
    }
}

/// Relies on `str::to_ascii_lowercase`: a copy of the text with each ASCII
/// letter mapped to lower case and every other character unchanged.
pub assume_specification[ str::to_ascii_lowercase ](s: &str) -> (r: String)
    ensures
        r@ == s@.map_values(|c: char| ascii_lower(c)),
;

/// Relies on `str::to_ascii_uppercase`: a copy of the text with each ASCII
/// letter mapped to upper case and every other character unchanged.
pub assume_specification[ str::to_ascii_uppercase ](s: &str) -> (r: String)
    ensures
        r@ == s@.map_values(|c: char| ascii_upper(c)),
;

/// `x` without one trailing carriage return, if it has one.
pub open spec fn strip_cr(x: Seq<char>) -> Seq<char> {
    if x.len() > 0 && x.last() == '\r' {
        x.drop_last()
    } else {
        x
    }
}

/// The lines of `s`: the text is cut at each `'\n'`, a `'\r'` right before a
/// `'\n'` belongs to the line ending, and a final empty line (after a last
/// `'\n'`, or in the empty text) is not counted.
pub open spec fn line_seq(s: Seq<char>) -> Seq<Seq<char>> {
    let parts = split_seq(s, '\n');
    let body = Seq::new((parts.len() - 1) as nat, |i: int| strip_cr(parts[i]));
    if parts.last().len() == 0 {
        body
    } else {
        body.push(parts.last())
    }
}

fn strip_cr_str<'a>(x: &'a str) -> (r: &'a str)
    ensures
        r@ == strip_cr(x@),
{
    let n = x.unicode_len();
    if n > 0 && x.get_char(n - 1) == '\r' {
        x.substring_char(0, n - 1)
    } else {
        x
    }
}

/// Splits `s` into lines.
pub fn lines_of<'a>(s: &'a str) -> (r: Vec<&'a str>)
    ensures
        strs_view(r@) == line_seq(s@),
{
    let parts = split_on(s, '\n');
    proof {
        lemma_split_seq_nonempty(s@, '\n');
    }
    let count = parts.len() - 1;
    let mut lines: Vec<&'a str> = Vec::new();
    let mut i: usize = 0;
    while i < count
        invariant
            count + 1 == parts@.len(),
            strs_view(parts@) == split_seq(s@, '\n'),
            i <= count,
            lines@.len() == i,
            forall|j: int| 0 <= j < i ==> #[trigger] lines@[j]@ == strip_cr(parts@[j]@),
        decreases count - i,
    {
        let line = strip_cr_str(parts[i]);
        lines.push(line);
        i = i + 1;
    }
    let last = parts[count];
    if last.unicode_len() > 0 {
        lines.push(last);
    }
    assert(strs_view(lines@) =~= line_seq(s@));
    lines
}

} // verus!
