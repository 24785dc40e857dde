//! Source text as sequences of characters: whitespace, trimming, fields and lines.

use vstd::prelude::*;
use vstd::string::*;

verus! {

/// The characters that carry the Unicode `White_Space` property.
pub open spec fn is_whitespace(c: char) -> bool {
    ||| ('\u{9}' <= c && c <= '\u{d}')
    ||| c == ' '
    ||| c == '\u{85}'
    ||| c == '\u{a0}'
    ||| c == '\u{1680}'
    ||| ('\u{2000}' <= c && c <= '\u{200a}')
    ||| c == '\u{2028}'
    ||| c == '\u{2029}'
    ||| c == '\u{202f}'
    ||| c == '\u{205f}'
    ||| c == '\u{3000}'
}

/// `s` without its leading whitespace.
pub open spec fn trim_start(s: Seq<char>) -> Seq<char>
    decreases s.len(),
{
    if s.len() > 0 && is_whitespace(s.first()) {
        trim_start(s.drop_first())
    } else {
        s
    }
}

/// `s` without its trailing whitespace.
pub open spec fn trim_end(s: Seq<char>) -> Seq<char>
    decreases s.len(),
{
    if s.len() > 0 && is_whitespace(s.last()) {
        trim_end(s.drop_last())
    } else {
        s
    }
}

/// `s` without the whitespace that surrounds it.
pub open spec fn trim(s: Seq<char>) -> Seq<char> {
    trim_end(trim_start(s))
}

/// `s` with every occurrence of `c` taken out.
pub open spec fn without_char(s: Seq<char>, c: char) -> Seq<char>
    decreases s.len(),
{
    if s.len() == 0 {
        s
    } else if s.last() == c {
        without_char(s.drop_last(), c)
    } else {
        without_char(s.drop_last(), c).push(s.last())
    }
}

/// The fields of `s`: the pieces between its single spaces, in order. There is
/// always at least one field, and a field is empty where two spaces meet or a
/// space stands at either end.
pub open spec fn fields(s: Seq<char>) -> Seq<Seq<char>>
    decreases s.len(),
{
    if s.len() == 0 {
        seq![Seq::<char>::empty()]
    } else {
        let before = fields(s.drop_last());
        if s.last() == ' ' {
            before.push(Seq::<char>::empty())
        } else {
            before.drop_last().push(before.last().push(s.last()))
        }
    }
}

/// The tokens of an instruction line: the fields of the trimmed line.
pub open spec fn tokens_of(line: Seq<char>) -> Seq<Seq<char>> {
    fields(trim(line))
}

/// The lines of a source text. A line ends at a carriage return followed by a
/// line feed; what follows the last such pair is a line too unless it is empty.
pub open spec fn source_lines(text: Seq<char>) -> Seq<Seq<char>>
    decreases text.len(),
{
    if text.len() == 0 {
        Seq::<Seq<char>>::empty()
    } else if text.len() >= 2 && text[0] == '\r' && text[1] == '\n' {
        seq![Seq::<char>::empty()] + source_lines(text.skip(2))
    } else {
        let rest = source_lines(text.skip(1));
        if rest.len() == 0 {
            seq![seq![text[0]]]
        } else {
            rest.update(0, seq![text[0]] + rest[0])
        }
    }
}

/// The character sequences that a vector of string slices stands for.
pub open spec fn views_of(v: Seq<&str>) -> Seq<Seq<char>> {
    Seq::new(v.len(), |k: int| v[k]@)
}

/// Whether position `i` of `s` starts a line break.
pub open spec fn break_at(s: Seq<char>, i: int) -> bool {
    0 <= i && i + 1 < s.len() && s[i] == '\r' && s[i + 1] == '\n'
}

/// Whether `c` is whitespace.
pub fn is_whitespace_char(c: char) -> (b: bool)
    ensures
        b == is_whitespace(c),
{
    ('\u{9}' <= c && c <= '\u{d}') || c == ' ' || c == '\u{85}' || c == '\u{a0}' || c
        == '\u{1680}' || ('\u{2000}' <= c && c <= '\u{200a}') || c == '\u{2028}' || c
        == '\u{2029}' || c == '\u{202f}' || c == '\u{205f}' || c == '\u{3000}'
}

/// The characters of `s`, for indexing in constant time.
pub fn to_chars(s: &str) -> (v: Vec<char>)
    ensures
        v@ == s@,
{
    let mut v: Vec<char> = Vec::new();
    for c in it: s.chars()
        invariant
            v@ == it.seq().take(it.index() as int),
    {
        v.push(c);
    }
    v
}

/// Whether `c` occurs in `cs`.
pub fn contains_char(cs: &Vec<char>, c: char) -> (b: bool)
    ensures
        b == cs@.contains(c),
{
    let mut i: usize = 0;
    while i < cs.len()
        invariant
            i <= cs.len(),
            forall|j: int| 0 <= j < i ==> cs@[j] != c,
        decreases cs.len() - i,
    {
        if cs[i] == c {
            return true;
        }
        i += 1;
    }
    false
}

/// The bounds of the trimmed part of `cs`.
pub fn trim_bounds(cs: &Vec<char>) -> (r: (usize, usize))
    ensures
        r.0 <= r.1 <= cs.len(),
        cs@.subrange(r.0 as int, r.1 as int) == trim(cs@),
{
    let mut a: usize = 0;
    proof {
        assert(cs@.skip(0) =~= cs@);
    }
    while a < cs.len() && is_whitespace_char(cs[a])
        invariant
            a <= cs.len(),
            trim_start(cs@) == trim_start(cs@.skip(a as int)),
        decreases cs.len() - a,
    {
        proof {
            assert(cs@.skip(a as int).drop_first() =~= cs@.skip(a + 1));
        }
        a += 1;
    }
    let mut b: usize = cs.len();
    proof {
        assert(cs@.skip(a as int) =~= cs@.subrange(a as int, b as int));
    }
    while b > a && is_whitespace_char(cs[b - 1])
        invariant
            a <= b <= cs.len(),
            trim(cs@) == trim_end(cs@.subrange(a as int, b as int)),
        decreases b - a,
    {
        proof {
            assert(cs@.subrange(a as int, b as int).drop_last() =~= cs@.subrange(
                a as int,
                b - 1,
            ));
        }
        b -= 1;
    }
    (a, b)
}

/// The tokens of an instruction line, as slices of it.
pub fn tokens<'a>(line: &'a str) -> (r: Vec<&'a str>)
    ensures
        views_of(r@) == tokens_of(line@),
        r@.len() >= 1,
{
    let cs = to_chars(line);
    let (a, b) = trim_bounds(&cs);
    let mut out: Vec<&'a str> = Vec::new();
    let mut start: usize = a;
    let mut i: usize = a;
    proof {
        assert(cs@.subrange(a as int, a as int) =~= Seq::<char>::empty());
        assert(views_of(out@).push(Seq::<char>::empty()) =~= fields(Seq::<char>::empty()));
    }
    while i < b
        invariant
            cs@ == line@,
            a <= start <= i <= b <= cs.len(),
            views_of(out@).push(cs@.subrange(start as int, i as int)) == fields(
                cs@.subrange(a as int, i as int),
            ),
        decreases b - i,
    {
        let ghost before = cs@.subrange(a as int, i as int);
        let ghost now = cs@.subrange(a as int, i + 1);
        let ghost cur = cs@.subrange(start as int, i as int);
        let ghost done = views_of(out@);
        proof {
            assert(now.drop_last() =~= before);
            assert(now.last() == cs@[i as int]);
            assert(fields(before) == done.push(cur));
            assert(done.push(cur).drop_last() =~= done);
        }
        if cs[i] == ' ' {
            let tok = line.substring_char(start, i);
            out.push(tok);
            start = i + 1;
            proof {
                assert(views_of(out@) =~= done.push(cur));
                assert(cs@.subrange(start as int, i + 1) =~= Seq::<char>::empty());
            }
        } else {
            proof {
                assert(cur.push(cs@[i as int]) =~= cs@.subrange(start as int, i + 1));
            }
        }
        i += 1;
    }
    let ghost done = views_of(out@);
    let tok = line.substring_char(start, b);
    out.push(tok);
    proof {
        assert(views_of(out@) =~= done.push(cs@.subrange(start as int, b as int)));
    }
    out
}

/// Taking a character out leaves none of it behind, and leaves a text without it
/// as it is.
pub proof fn lemma_without_char(s: Seq<char>, c: char)
    ensures
        !without_char(s, c).contains(c),
        without_char(s, c).len() <= s.len(),
        !s.contains(c) ==> without_char(s, c) == s,
    decreases s.len(),
{
    if s.len() > 0 {
        let init = s.drop_last();
        lemma_without_char(init, c);
        let r = without_char(init, c);
        if s.last() != c {
            if r.push(s.last()).contains(c) {
                let j = choose|j: int| 0 <= j < r.len() + 1 && r.push(s.last())[j] == c;
                assert(r[j] == c);
                assert(r.contains(c));
            }
        }
        if !s.contains(c) {
            if init.contains(c) {
                let j = choose|j: int| 0 <= j < init.len() && init[j] == c;
                assert(s[j] == c);
            }
            assert(s[s.len() - 1] != c);
            assert(init.push(s.last()) =~= s);
        }
    }
}

/// The fields put together again, with a space between neighbours.
pub open spec fn spaced(fs: Seq<Seq<char>>) -> Seq<char>
    decreases fs.len(),
{
    if fs.len() == 0 {
        Seq::<char>::empty()
    } else if fs.len() == 1 {
        fs[0]
    } else {
        spaced(fs.drop_last()) + seq![' '] + fs.last()
    }
}

/// Splitting into fields loses nothing and leaves no space in a field: the fields
/// with a space between neighbours are the text again.
pub proof fn lemma_fields(s: Seq<char>)
    ensures
        fields(s).len() >= 1,
        spaced(fields(s)) == s,
        forall|k: int| 0 <= k < fields(s).len() ==> !(#[trigger] fields(s)[k]).contains(' '),
    decreases s.len(),
{
    if s.len() == 0 {
        assert(fields(s)[0] =~= Seq::<char>::empty());
    } else {
        let init = s.drop_last();
        let c = s.last();
        let before = fields(init);
        lemma_fields(init);
        assert(init.push(c) =~= s);
        if c == ' ' {
            let now = before.push(Seq::<char>::empty());
            assert(now.drop_last() =~= before);
            assert(spaced(now) =~= s);
            assert forall|k: int| 0 <= k < now.len() implies !(#[trigger] now[k]).contains(
                ' ',
            ) by {
                if k < before.len() {
                    assert(now[k] == before[k]);
                }
            }
        } else {
            let last = before.last().push(c);
            let now = before.drop_last().push(last);
            assert(now.drop_last() =~= before.drop_last());
            if before.len() == 1 {
                assert(spaced(before) == before[0]);
                assert(spaced(now) =~= s);
            } else {
                assert(spaced(before) == spaced(before.drop_last()) + seq![' '] + before.last());
                assert(spaced(now) =~= spaced(before).push(c));
            }
            assert forall|k: int| 0 <= k < now.len() implies !(#[trigger] now[k]).contains(
                ' ',
            ) by {
                if k < before.len() - 1 {
                    assert(now[k] == before[k]);
                } else {
                    assert(!before[before.len() - 1].contains(' '));
                    if last.contains(' ') {
                        let j = choose|j: int| 0 <= j < last.len() && last[j] == ' ';
                        assert(before.last()[j] == ' ');
                        assert(before.last().contains(' '));
                    }
                }
            }
        }
    }
}

/// Leading whitespace does not count for what is left after trimming the start.
pub proof fn lemma_trim_start_skips(s: Seq<char>, a: int)
    requires
        0 <= a <= s.len(),
        forall|i: int| 0 <= i < a ==> is_whitespace(s[i]),
    ensures
        trim_start(s) == trim_start(s.skip(a)),
    decreases a,
{
    if a == 0 {
        assert(s.skip(0) =~= s);
    } else {
        assert(is_whitespace(s[0]));
        let u = s.drop_first();
        assert forall|i: int| 0 <= i < a - 1 implies is_whitespace(u[i]) by {
            assert(u[i] == s[i + 1]);
        }
        lemma_trim_start_skips(u, a - 1);
        assert(u.skip(a - 1) =~= s.skip(a));
    }
}

/// Trailing whitespace does not count for what is left after trimming the end.
pub proof fn lemma_trim_end_skips(s: Seq<char>, b: int)
    requires
        0 <= b <= s.len(),
        forall|i: int| b <= i < s.len() ==> is_whitespace(s[i]),
    ensures
        trim_end(s) == trim_end(s.take(b)),
    decreases s.len() - b,
{
    if b == s.len() {
        assert(s.take(b) =~= s);
    } else {
        assert(is_whitespace(s[s.len() - 1]));
        let u = s.drop_last();
        lemma_trim_end_skips(u, b);
        assert(u.take(b) =~= s.take(b));
    }
}

/// What trimming leaves is the part of the text from its first character that is no
/// whitespace to its last: whatever part has only whitespace before it and behind
/// it, and none at either of its own ends, is the trimmed text.
pub proof fn lemma_trim(s: Seq<char>, a: int, b: int)
    requires
        0 <= a <= b <= s.len(),
        forall|i: int| 0 <= i < a ==> is_whitespace(s[i]),
        forall|i: int| b <= i < s.len() ==> is_whitespace(s[i]),
        a < b ==> !is_whitespace(s[a]) && !is_whitespace(s[b - 1]),
    ensures
        trim(s) == s.subrange(a, b),
{
    if a == b {
        lemma_trim_start_skips(s, s.len() as int);
        assert(s.skip(s.len() as int) =~= Seq::<char>::empty());
        assert(s.subrange(a, b) =~= Seq::<char>::empty());
    } else {
        lemma_trim_start_skips(s, a);
        let t = s.skip(a);
        assert(t.first() == s[a]);
        assert(trim_start(t) == t);
        assert forall|i: int| b - a <= i < t.len() implies is_whitespace(t[i]) by {
            assert(t[i] == s[i + a]);
        }
        lemma_trim_end_skips(t, b - a);
        let u = t.take(b - a);
        assert(u =~= s.subrange(a, b));
        assert(u.last() == s[b - 1]);
        assert(trim_end(u) == u);
    }
}

/// A text without a line break is one line, or none where it is empty.
pub proof fn lemma_lines_unbroken(t: Seq<char>)
    requires
        forall|j: int| !break_at(t, j),
    ensures
        source_lines(t) == if t.len() == 0 {
            Seq::<Seq<char>>::empty()
        } else {
            seq![t]
        },
    decreases t.len(),
{
    if t.len() > 0 {
        assert(!break_at(t, 0));
        let u = t.skip(1);
        assert forall|j: int| !break_at(u, j) by {
            assert(!break_at(t, j + 1));
        }
        lemma_lines_unbroken(u);
        let rest = source_lines(u);
        if rest.len() == 0 {
            assert(t =~= seq![t[0]]);
        } else {
            assert(seq![t[0]] + u =~= t);
            assert(rest.update(0, seq![t[0]] + rest[0]) =~= seq![t]);
        }
    }
}

/// The first line of a text ends at its first line break, and the other lines are
/// those of the text behind that break.
pub proof fn lemma_lines_first_break(t: Seq<char>, k: int)
    requires
        break_at(t, k),
        forall|j: int| 0 <= j < k ==> !break_at(t, j),
    ensures
        source_lines(t) == seq![t.take(k)] + source_lines(t.skip(k + 2)),
    decreases k,
{
    if k == 0 {
        assert(t.take(0) =~= Seq::<char>::empty());
    } else {
        assert(!break_at(t, 0));
        let u = t.skip(1);
        assert(break_at(u, k - 1));
        assert forall|j: int| 0 <= j < k - 1 implies !break_at(u, j) by {
            assert(!break_at(t, j + 1));
        }
        lemma_lines_first_break(u, k - 1);
        let rest = source_lines(u);
        assert(u.skip(k + 1) =~= t.skip(k + 2));
        assert(seq![t[0]] + u.take(k - 1) =~= t.take(k));
        assert(rest.update(0, seq![t[0]] + rest[0]) =~= seq![t.take(k)] + source_lines(
            t.skip(k + 2),
        ));
    }
}

/// The lines of a source text, as slices of it.
pub fn split_lines<'a>(text: &'a str) -> (r: Vec<&'a str>)
    ensures
        views_of(r@) == source_lines(text@),
{
    let cs = to_chars(text);
    let n = cs.len();
    let mut out: Vec<&'a str> = Vec::new();
    let mut start: usize = 0;
    let mut i: usize = 0;
    proof {
        assert(cs@.skip(0) =~= cs@);
        assert(views_of(out@) + source_lines(cs@) =~= source_lines(cs@));
    }
    while i < n
        invariant
            cs@ == text@,
            n == cs.len(),
            start <= i <= n,
            forall|j: int| start <= j < i ==> !break_at(cs@, j),
            source_lines(text@) == views_of(out@) + source_lines(cs@.skip(start as int)),
        decreases n - i,
    {
        if cs[i] == '\r' && i + 1 < n && cs[i + 1] == '\n' {
            let ghost t = cs@.skip(start as int);
            let ghost done = views_of(out@);
            proof {
                assert(break_at(t, i - start));
                assert forall|j: int| 0 <= j < i - start implies !break_at(t, j) by {
                    assert(!break_at(cs@, start + j));
                }
                lemma_lines_first_break(t, i - start);
                assert(t.take(i - start) =~= cs@.subrange(start as int, i as int));
                assert(t.skip(i - start + 2) =~= cs@.skip(i + 2));
            }
            let line = text.substring_char(start, i);
            out.push(line);
            i += 2;
            start = i;
            proof {
                assert(views_of(out@) =~= done.push(line@));
                assert(done.push(line@) + source_lines(cs@.skip(start as int)) =~= done + (
                seq![line@] + source_lines(cs@.skip(start as int))));
            }
        } else {
            i += 1;
        }
    }
    let ghost t = cs@.skip(start as int);
    let ghost done = views_of(out@);
    proof {
        assert forall|j: int| !break_at(t, j) by {
            if 0 <= j && j + 1 < t.len() {
                assert(!break_at(cs@, start + j));
            }
        }
        lemma_lines_unbroken(t);
    }
    if start < n {
        let line = text.substring_char(start, n);
        out.push(line);
        proof {
            assert(t =~= cs@.subrange(start as int, n as int));
            assert(views_of(out@) =~= done.push(line@));
            assert(done.push(line@) =~= done + seq![t]);
        }
    } else {
        proof {
            assert(done + Seq::<Seq<char>>::empty() =~= done);
        }
    }
    out
}

/// The trimmed line without the occurrences of `c`.
pub fn trimmed_without<'a>(line: &'a str, c: char) -> (r: String)
    ensures
        r@ == without_char(trim(line@), c),
{
    let cs = to_chars(line);
    let (a, b) = trim_bounds(&cs);
    let mut name = String::new();
    let mut start: usize = a;
    let mut i: usize = a;
    proof {
        assert(cs@.subrange(a as int, a as int) =~= Seq::<char>::empty());
        assert(name@ + Seq::<char>::empty() =~= Seq::<char>::empty());
    }
    while i < b
        invariant
            cs@ == line@,
            a <= start <= i <= b <= cs.len(),
            name@ + cs@.subrange(start as int, i as int) == without_char(
                cs@.subrange(a as int, i as int),
                c,
            ),
        decreases b - i,
    {
        let ghost before = cs@.subrange(a as int, i as int);
        let ghost now = cs@.subrange(a as int, i + 1);
        let ghost cur = cs@.subrange(start as int, i as int);
        let ghost had = name@;
        proof {
            assert(now.drop_last() =~= before);
            assert(now.last() == cs@[i as int]);
        }
        if cs[i] == c {
            name.append(line.substring_char(start, i));
            start = i + 1;
            proof {
                assert(cs@.subrange(start as int, i + 1) =~= Seq::<char>::empty());
                assert(name@ + Seq::<char>::empty() =~= had + cur);
            }
        } else {
            proof {
                assert(had + cs@.subrange(start as int, i + 1) =~= (had + cur).push(
                    cs@[i as int],
                ));
            }
        }
        i += 1;
    }
    name.append(line.substring_char(start, b));
    name
}

} // verus!
