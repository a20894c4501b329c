//! Strings as sequences of characters.

use vstd::prelude::*;

verus! {

/// What `str::to_uppercase` returns for the characters `s`.
pub uninterp spec fn uppercase_of(s: Seq<char>) -> Seq<char>;

/// `str::to_uppercase` returns the upper-case equivalent of the string as a new
/// `String`. Which characters that gives follows Unicode's case mapping, which
/// is not stated here: the result is only named, as a function of the characters
/// of `s`.
#[verifier::external_body]
pub(crate) fn to_uppercase(s: &str) -> (upper: String)
    ensures
        upper@ == uppercase_of(s@),
{
    s.to_uppercase()
}

/// `String::push` appends one character to the end of the string and leaves
/// the characters before it as they were.
pub assume_specification[ String::push ](s: &mut String, c: char)
    ensures
        final(s)@ == old(s)@.push(c),
;

/// The characters of `s`, in order.
pub fn chars_of(s: &str) -> (v: Vec<char>)
    ensures
        v@ == s@,
{
    let mut v: Vec<char> = Vec::new();
    for c in it: s.chars()
        invariant
            v@ == it.seq().take(it.index() as int),
            it.seq() == s@,
    {
        v.push(c);
    }
    v
}

/// The string whose characters are those of `v`, in order.
pub fn string_of(v: &Vec<char>) -> (s: String)
    ensures
        s@ == v@,
{
    let mut s = String::new();
    let mut i: usize = 0;
    while i < v.len()
        invariant
            i <= v.len(),
            s@ == v@.take(i as int),
        decreases v.len() - i,
    {
        s.push(v[i]);
        i += 1;
    }
    s
}

/// The characters of `v` from position `from` up to, not including, `to`.
pub fn part_of(v: &Vec<char>, from: usize, to: usize) -> (part: Vec<char>)
    requires
        from <= to <= v.len(),
    ensures
        part@ == v@.subrange(from as int, to as int),
{
    let mut part: Vec<char> = Vec::new();
    let mut i: usize = from;
    while i < to
        invariant
            from <= i <= to <= v.len(),
            part@ == v@.subrange(from as int, i as int),
        decreases to - i,
    {
        part.push(v[i]);
        i += 1;
    }
    part
}

/// Where `c` first stands in `s`; the length of `s` where it stands nowhere.
pub open spec fn position_of(s: Seq<char>, c: char) -> int
    decreases s.len(),
{
    if s.len() == 0 || s[0] == c {
        0
    } else {
        1 + position_of(s.drop_first(), c)
    }
}

/// The position of `c` lies within `s` or at its end; `c` stands there if
/// it lies within, and nowhere before.
pub proof fn lemma_position_found(s: Seq<char>, c: char)
    ensures
        0 <= position_of(s, c) <= s.len(),
        position_of(s, c) < s.len() ==> s[position_of(s, c)] == c,
        forall|j: int| 0 <= j < position_of(s, c) ==> s[j] != c,
    decreases s.len(),
{
    if s.len() > 0 && s[0] != c {
        let rest = s.drop_first();
        lemma_position_found(rest, c);
        assert forall|j: int| 0 <= j < position_of(s, c) implies s[j] != c by {
            if j > 0 {
                assert(rest[j - 1] == s[j]);
            }
        }
    }
}

/// A position before which `c` does not stand, and at which it stands or `s`
/// ends, is the position of `c` in `s`.
pub proof fn lemma_position_of(s: Seq<char>, c: char, at: int)
    requires
        0 <= at <= s.len(),
        forall|j: int| 0 <= j < at ==> s[j] != c,
        at < s.len() ==> s[at] == c,
    ensures
        position_of(s, c) == at,
    decreases s.len(),
{
    if at > 0 {
        let rest = s.drop_first();
        assert forall|j: int| 0 <= j < at - 1 implies rest[j] != c by {
            assert(rest[j] == s[j + 1]);
        }
        lemma_position_of(rest, c, at - 1);
    }
}

/// Where `c` first stands in `v`; the length of `v` where it stands nowhere.
pub fn find_char(v: &Vec<char>, c: char) -> (at: usize)
    ensures
        at == position_of(v@, c),
        at <= v.len(),
{
    let mut at: usize = 0;
    while at < v.len() && v[at] != c
        invariant
            at <= v.len(),
            forall|j: int| 0 <= j < at ==> v@[j] != c,
        decreases v.len() - at,
    {
        at += 1;
    }
    proof {
        lemma_position_of(v@, c, at as int);
    }
    at
}

/// The pieces of `s` between the occurrences of `sep`, in order: one more
/// piece than there are separators, each possibly empty.
pub open spec fn split(s: Seq<char>, sep: char) -> Seq<Seq<char>>
    decreases s.len(),
{
    let at = position_of(s, sep);
    if 0 <= at < s.len() {
        seq![s.take(at)] + split(s.skip(at + 1), sep)
    } else {
        seq![s]
    }
}

/// The characters that each of `parts` holds.
pub open spec fn views(parts: Seq<Vec<char>>) -> Seq<Seq<char>> {
    parts.map_values(|part: Vec<char>| part@)
}

/// The pieces of `v` between the occurrences of `sep`.
pub fn split_chars(v: &Vec<char>, sep: char) -> (parts: Vec<Vec<char>>)
    ensures
        views(parts@) == split(v@, sep),
        parts.len() >= 1,
{
    let mut parts: Vec<Vec<char>> = Vec::new();
    let mut start: usize = 0;
    let mut done = false;
    proof {
        assert(v@.skip(0) =~= v@);
        assert(views(parts@) + split(v@, sep) =~= split(v@, sep));
    }
    while !done
        invariant
            start <= v.len(),
            done ==> views(parts@) == split(v@, sep) && parts.len() >= 1,
            !done ==> split(v@, sep) == views(parts@) + split(v@.skip(start as int), sep),
        decreases
                (if done {
                    0
                } else {
                    v.len() - start + 1
                }),
    {
        let mut end: usize = start;
        while end < v.len() && v[end] != sep
            invariant
                start <= end <= v.len(),
                forall|j: int| start <= j < end ==> v@[j] != sep,
            decreases v.len() - end,
        {
            end += 1;
        }
        let piece = part_of(v, start, end);
        let ghost rest = v@.skip(start as int);
        let ghost before = views(parts@);
        proof {
            assert forall|j: int| 0 <= j < end - start implies rest[j] != sep by {
                assert(rest[j] == v@[start + j]);
            }
            lemma_position_of(rest, sep, end - start);
            assert(rest.take(end - start) =~= piece@);
        }
        parts.push(piece);
        proof {
            assert(views(parts@) =~= before.push(piece@));
        }
        if end == v.len() {
            proof {
                assert(rest.take(end - start) =~= rest);
                assert(before + seq![rest] =~= before.push(rest));
            }
            done = true;
        } else {
            proof {
                assert(rest.skip(end - start + 1) =~= v@.skip(end + 1));
                assert(before + (seq![piece@] + split(v@.skip(end + 1), sep)) =~= before.push(
                    piece@,
                ) + split(v@.skip(end + 1), sep));
            }
            start = end + 1;
        }
    }
    parts
}

} // verus!
