//! The line-oriented text files around a session: the consumer's want-list
//! (the first whitespace-separated word of each line names a wanted file) and
//! the producer's listing (each line `name size`, with exactly two words).

use vstd::prelude::*;
use vstd::std_specs::iter::IteratorSpec;

verus! {

/// Whether `c` has the Unicode `White_Space` property.
pub open spec fn is_white_space(c: char) -> bool {
    let u = c as u32;
    ||| 0x09 <= u <= 0x0D
    ||| u == 0x20
    ||| u == 0x85
    ||| u == 0xA0
    ||| u == 0x1680
    ||| 0x2000 <= u <= 0x200A
    ||| u == 0x2028
    ||| u == 0x2029
    ||| u == 0x202F
    ||| u == 0x205F
    ||| u == 0x3000
}

/// Relies on `char::is_whitespace`, which is true exactly of the characters
/// with the Unicode `White_Space` property.
#[verifier::external_body]
fn white_space(c: char) -> (r: bool)
    ensures
        r == is_white_space(c),
{
    c.is_whitespace()
}

/// Relies on collecting `char`s into a `String` (`FromIterator<char>`), which
/// holds exactly those characters in order.
#[verifier::external_body]
fn string_of(chars: &[char]) -> (r: String)
    ensures
        r@ == chars@,
{
    chars.iter().collect()
}

/// The characters of `text`, in order.
fn chars_of(text: &str) -> (r: Vec<char>)
    ensures
        r@ == text@,
{
    broadcast use vstd::string::axiom_spec_iter, vstd::string::next_postcondition;

    let mut it = text.chars();
    let mut out: Vec<char> = Vec::new();
    let mut more = true;
    while more
        invariant
            it.obeys_prophetic_iter_laws(),
            out@ + it.remaining() == text@,
            !more ==> it.remaining().len() == 0,
        decreases text@.len() - out@.len() + if more { 1int } else { 0 },
    {
        match it.next() {
            Some(c) => {
                out.push(c);
                assert(out@ + it.remaining() =~= text@);
            },
            None => {
                more = false;
            },
        }
    }
    assert(out@ + it.remaining() =~= out@);
    out
}

/// How many characters at the front of `s` are not white space.
pub open spec fn word_len(s: Seq<char>) -> nat
    decreases s.len(),
{
    if s.len() == 0 || is_white_space(s[0]) {
        0
    } else {
        1 + word_len(s.drop_first())
    }
}

/// The maximal runs of non-white-space characters of `s`, in order.
pub open spec fn words(s: Seq<char>) -> Seq<Seq<char>>
    decreases s.len(),
{
    if s.len() == 0 {
        seq![]
    } else if is_white_space(s[0]) {
        words(s.drop_first())
    } else {
        let k = word_len(s);
        if 0 < k <= s.len() {
            seq![s.take(k as int)] + words(s.skip(k as int))
        } else {
            seq![]
        }
    }
}

/// The lines of `s`: the pieces between `'\n'` characters.
pub open spec fn lines(s: Seq<char>) -> Seq<Seq<char>>
    decreases s.len(),
{
    if s.len() == 0 {
        seq![seq![]]
    } else {
        let p = lines(s.drop_last());
        if s.last() == '\n' {
            p.push(seq![])
        } else {
            p.update(p.len() - 1, p.last().push(s.last()))
        }
    }
}

/// The first word of each line that has one, in order.
pub open spec fn first_words(ls: Seq<Seq<char>>) -> Seq<Seq<char>>
    decreases ls.len(),
{
    if ls.len() == 0 {
        seq![]
    } else {
        let r = first_words(ls.drop_last());
        let w = words(ls.last());
        if w.len() > 0 {
            r.push(w[0])
        } else {
            r
        }
    }
}

/// The names of a listing: the first word of each line that has exactly two
/// words and whose first word has no NUL character, in order.
pub open spec fn listed_names(ls: Seq<Seq<char>>) -> Seq<Seq<char>>
    decreases ls.len(),
{
    if ls.len() == 0 {
        seq![]
    } else {
        let r = listed_names(ls.drop_last());
        let w = words(ls.last());
        if w.len() == 2 && !w[0].contains('\0') {
            r.push(w[0])
        } else {
            r
        }
    }
}

/// The contents of a list of strings.
pub open spec fn string_views(v: Seq<String>) -> Seq<Seq<char>> {
    v.map_values(|s: String| s@)
}

proof fn lemma_word_len(s: Seq<char>, m: int)
    requires
        0 <= m <= s.len(),
        forall|k: int| 0 <= k < m ==> !is_white_space(s[k]),
        m == s.len() || is_white_space(s[m]),
    ensures
        word_len(s) == m,
    decreases m,
{
    if m > 0 {
        lemma_word_len(s.drop_first(), m - 1);
    }
}

/// The words of `cs[from..to]`.
fn words_in(cs: &Vec<char>, from: usize, to: usize) -> (r: Vec<String>)
    requires
        from <= to <= cs@.len(),
    ensures
        string_views(r@) == words(cs@.subrange(from as int, to as int)),
{
    let mut out: Vec<String> = Vec::new();
    let mut i: usize = from;
    proof {
        assert(string_views(out@) + words(cs@.subrange(from as int, to as int)) =~= words(
            cs@.subrange(from as int, to as int),
        ));
    }
    while i < to
        invariant
            from <= i <= to <= cs@.len(),
            string_views(out@) + words(cs@.subrange(i as int, to as int)) == words(
                cs@.subrange(from as int, to as int),
            ),
        decreases to - i,
    {
        let ghost rest = cs@.subrange(i as int, to as int);
        if white_space(cs[i]) {
            proof {
                assert(rest.drop_first() =~= cs@.subrange(i + 1, to as int));
            }
            i = i + 1;
        } else {
            let mut j: usize = i + 1;
            while j < to && !white_space(cs[j])
                invariant
                    i < j <= to <= cs@.len(),
                    forall|k: int| i <= k < j ==> !is_white_space(cs@[k]),
                decreases to - j,
            {
                j = j + 1;
            }
            let ghost old_out = out@;
            out.push(string_of(vstd::slice::slice_subrange(cs.as_slice(), i, j)));
            proof {
                lemma_word_len(rest, j - i);
                assert(rest.take(j - i) =~= cs@.subrange(i as int, j as int));
                assert(rest.skip(j - i) =~= cs@.subrange(j as int, to as int));
                assert(string_views(out@) =~= string_views(old_out).push(
                    cs@.subrange(i as int, j as int),
                ));
                assert(string_views(out@) + words(cs@.subrange(j as int, to as int)) =~= string_views(
                    old_out,
                ) + words(rest));
            }
            i = j;
        }
    }
    proof {
        assert(words(cs@.subrange(to as int, to as int)) =~= Seq::<Seq<char>>::empty());
        assert(string_views(out@) + Seq::<Seq<char>>::empty() =~= string_views(out@));
    }
    out
}

/// The words of each line of `text`, line by line.
fn words_by_line(text: &str) -> (r: Vec<Vec<String>>)
    ensures
        r@.len() == lines(text@).len(),
        forall|k: int|
            0 <= k < r@.len() ==> string_views(#[trigger] r@[k]@) == words(lines(text@)[k]),
{
    let cs = chars_of(text);
    let n = cs.len();
    let mut out: Vec<Vec<String>> = Vec::new();
    let mut start: usize = 0;
    let mut i: usize = 0;
    let ghost mut done: Seq<Seq<char>> = seq![];
    proof {
        assert(cs@.take(0) =~= Seq::<char>::empty());
        assert(lines(cs@.take(0)) =~= done.push(cs@.subrange(0, 0)));
    }
    while i < n
        invariant
            n == cs@.len(),
            cs@ == text@,
            start <= i <= n,
            lines(cs@.take(i as int)) == done.push(cs@.subrange(start as int, i as int)),
            out@.len() == done.len(),
            forall|k: int| 0 <= k < out@.len() ==> string_views(#[trigger] out@[k]@) == words(done[k]),
        decreases n - i,
    {
        let c = cs[i];
        proof {
            assert(cs@.take(i + 1).drop_last() =~= cs@.take(i as int));
            assert(cs@.take(i + 1).last() == c);
        }
        if c == '\n' {
            let line = words_in(&cs, start, i);
            out.push(line);
            proof {
                done = done.push(cs@.subrange(start as int, i as int));
                assert(cs@.subrange(i + 1, i + 1) =~= Seq::<char>::empty());
                assert(lines(cs@.take(i + 1)) =~= done.push(cs@.subrange(i + 1, i + 1)));
            }
            start = i + 1;
        } else {
            proof {
                assert(cs@.subrange(start as int, i + 1) =~= cs@.subrange(start as int, i as int).push(c));
                assert(lines(cs@.take(i + 1)) =~= done.push(cs@.subrange(start as int, i + 1)));
            }
        }
        i = i + 1;
    }
    let line = words_in(&cs, start, n);
    out.push(line);
    proof {
        assert(cs@.take(n as int) =~= cs@);
        done = done.push(cs@.subrange(start as int, n as int));
        assert(lines(text@) == done);
    }
    out
}

/// The want-list in `text`: the first word of every line that has a word,
/// in line order. Lines without a word are skipped.
pub fn parse_want_list(text: &str) -> (r: Vec<String>)
    ensures
        string_views(r@) == first_words(lines(text@)),
{
    let by_line = words_by_line(text);
    let ghost ls = lines(text@);
    let mut out: Vec<String> = Vec::new();
    let mut i: usize = 0;
    proof {
        assert(ls.take(0) =~= Seq::<Seq<char>>::empty());
    }
    while i < by_line.len()
        invariant
            by_line@.len() == ls.len(),
            forall|k: int|
                0 <= k < by_line@.len() ==> string_views(#[trigger] by_line@[k]@) == words(ls[k]),
            i <= ls.len(),
            string_views(out@) == first_words(ls.take(i as int)),
        decreases ls.len() - i,
    {
        let line = &by_line[i];
        proof {
            assert(ls.take(i + 1).drop_last() =~= ls.take(i as int));
            assert(ls.take(i + 1).last() == ls[i as int]);
            assert(string_views(line@) == words(ls[i as int]));
        }
        if line.len() > 0 {
            let ghost before = out@;
            out.push(line[0].clone());
            proof {
                assert(string_views(line@)[0] == line@[0]@);
                assert(string_views(out@) =~= string_views(before).push(line@[0]@));
            }
        }
        i = i + 1;
    }
    proof {
        assert(ls.take(ls.len() as int) =~= ls);
    }
    out
}

/// Whether `s` holds a NUL character.
fn has_nul(s: &String) -> (r: bool)
    ensures
        r == s@.contains('\0'),
{
    let cs = chars_of(s.as_str());
    let mut i: usize = 0;
    while i < cs.len()
        invariant
            cs@ == s@,
            i <= cs@.len(),
            forall|j: int| 0 <= j < i ==> cs@[j] != '\0',
        decreases cs@.len() - i,
    {
        if cs[i] == '\0' {
            return true;
        }
        i = i + 1;
    }
    false
}

/// The names of the listing in `text`: for every line of exactly two words
/// whose first word holds no NUL character, that first word, in line order.
/// Other lines are skipped.
pub fn listing_names(text: &str) -> (r: Vec<String>)
    ensures
        string_views(r@) == listed_names(lines(text@)),
{
    let by_line = words_by_line(text);
    let ghost ls = lines(text@);
    let mut out: Vec<String> = Vec::new();
    let mut i: usize = 0;
    proof {
        assert(ls.take(0) =~= Seq::<Seq<char>>::empty());
    }
    while i < by_line.len()
        invariant
            by_line@.len() == ls.len(),
            forall|k: int|
                0 <= k < by_line@.len() ==> string_views(#[trigger] by_line@[k]@) == words(ls[k]),
            i <= ls.len(),
            string_views(out@) == listed_names(ls.take(i as int)),
        decreases ls.len() - i,
    {
        let line = &by_line[i];
        proof {
            assert(ls.take(i + 1).drop_last() =~= ls.take(i as int));
            assert(ls.take(i + 1).last() == ls[i as int]);
            assert(string_views(line@) == words(ls[i as int]));
        }
        if line.len() == 2 {
            proof {
                assert(string_views(line@)[0] == line@[0]@);
            }
            if !has_nul(&line[0]) {
                let ghost before = out@;
                out.push(line[0].clone());
                proof {
                    assert(string_views(out@) =~= string_views(before).push(line@[0]@));
                }
            }
        }
        i = i + 1;
    }
    proof {
        assert(ls.take(ls.len() as int) =~= ls);
    }
    out
}

} // verus!
