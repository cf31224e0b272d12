//! Character-level text utilities for the row parser and the prompt loop:
//! splitting on a separator, dropping carriage returns and blank lines, and
//! trimming blanks.

use vstd::prelude::*;

verus! {

/// The fields of `s` split on every occurrence of `sep`: one field more than
/// there are separators, the empty sequence giving one empty field.
pub open spec fn split_on(s: Seq<char>, sep: char) -> Seq<Seq<char>>
    decreases s.len(),
{
    if s.len() == 0 {
        seq![Seq::<char>::empty()]
    } else {
        let rest = split_on(s.drop_first(), sep);
        if s[0] == sep {
            seq![Seq::<char>::empty()].add(rest)
        } else {
            rest.update(0, seq![s[0]].add(rest[0]))
        }
    }
}

pub proof fn lemma_split_on_nonempty(s: Seq<char>, sep: char)
    ensures
        split_on(s, sep).len() >= 1,
    decreases s.len(),
{
    if s.len() != 0 {
        lemma_split_on_nonempty(s.drop_first(), sep);
    }
}

/// What the splitting loop has established part-way through `s`: the fields
/// already complete, then the current partial field glued onto the first
/// field of whatever the unread remainder splits into.
pub open spec fn split_accum(
    done: Seq<Seq<char>>,
    cur: Seq<char>,
    rem: Seq<char>,
    sep: char,
) -> Seq<Seq<char>> {
    let rest = split_on(rem, sep);
    done.add(rest.update(0, cur.add(rest[0])))
}

pub fn split_fields(s: &str, sep: char) -> (r: Vec<String>)
    ensures
        r@.map_values(|f: String| f@) == split_on(s@, sep),
{
    let n = s.unicode_len();
    let mut done: Vec<String> = Vec::new();
    let mut start: usize = 0;
    let mut i: usize = 0;
    proof {
        assert(s@.subrange(0, n as int) =~= s@);
        lemma_split_on_nonempty(s@, sep);
        let rest = split_on(s@, sep);
        assert(s@.subrange(0, 0).add(rest[0]) =~= rest[0]);
        assert(rest.update(0, s@.subrange(0, 0).add(rest[0])) =~~= rest);
        assert(done@.map_values(|f: String| f@).add(rest) =~~= rest);
        assert(split_on(s@, sep) == split_accum(
            done@.map_values(|f: String| f@),
            s@.subrange(0, 0),
            s@.subrange(0, n as int),
            sep,
        ));
    }
    while i < n
        invariant
            n == s@.len(),
            start <= i <= n,
            split_on(s@, sep) == split_accum(
                done@.map_values(|f: String| f@),
                s@.subrange(start as int, i as int),
                s@.subrange(i as int, n as int),
                sep,
            ),
        decreases n - i,
    {
        let ghost done0 = done@.map_values(|f: String| f@);
        let ghost cur = s@.subrange(start as int, i as int);
        let ghost rem = s@.subrange(i as int, n as int);
        let ghost rest = split_on(rem, sep);
        let ghost tail = s@.subrange(i as int + 1, n as int);
        let ghost rest_tail = split_on(tail, sep);
        proof {
            assert(rem.len() > 0);
            assert(rem[0] == s@[i as int]);
            assert(rem.drop_first() =~= tail);
            lemma_split_on_nonempty(tail, sep);
        }
        let c = s.get_char(i);
        if c == sep {
            let field = s.substring_char(start, i).to_owned();
            done.push(field);
            proof {
                assert(rest == seq![Seq::<char>::empty()].add(rest_tail));
                assert(rest[0] =~= Seq::<char>::empty());
                assert(cur.add(rest[0]) =~= cur);
                assert(rest.update(0, cur.add(rest[0])) =~~= seq![cur].add(rest_tail));
                let empty_cur = s@.subrange(i as int + 1, i as int + 1);
                assert(empty_cur.add(rest_tail[0]) =~= rest_tail[0]);
                assert(rest_tail.update(0, empty_cur.add(rest_tail[0])) =~~= rest_tail);
                assert(field@ == cur);
                assert(done@.map_values(|f: String| f@) =~~= done0.push(cur));
                assert(done0.push(cur).add(rest_tail) =~~= done0.add(seq![cur].add(rest_tail)));
                assert(split_on(s@, sep) == split_accum(
                    done@.map_values(|f: String| f@),
                    empty_cur,
                    tail,
                    sep,
                ));
            }
            start = i + 1;
        } else {
            proof {
                assert(rest == rest_tail.update(0, seq![s@[i as int]].add(rest_tail[0])));
                assert(rest[0] == seq![s@[i as int]].add(rest_tail[0]));
                let cur1 = s@.subrange(start as int, i as int + 1);
                assert(cur.add(rest[0]) =~= cur1.add(rest_tail[0]));
                assert(rest.update(0, cur.add(rest[0])) =~~= rest_tail.update(
                    0,
                    cur1.add(rest_tail[0]),
                ));
                assert(split_on(s@, sep) == split_accum(done0, cur1, tail, sep));
            }
        }
        i = i + 1;
    }
    let ghost done0 = done@.map_values(|f: String| f@);
    let ghost cur = s@.subrange(start as int, n as int);
    let last = s.substring_char(start, n).to_owned();
    done.push(last);
    proof {
        assert(s@.subrange(n as int, n as int) =~= Seq::<char>::empty());
        let rest = split_on(Seq::<char>::empty(), sep);
        assert(rest == seq![Seq::<char>::empty()]);
        assert(rest[0] =~= Seq::<char>::empty());
        assert(cur.add(rest[0]) =~= cur);
        assert(rest.update(0, cur.add(rest[0])) =~~= seq![cur]);
        assert(done0.add(seq![cur]) =~~= done0.push(cur));
        assert(last@ == cur);
        assert(done@.map_values(|f: String| f@) =~~= done0.push(cur));
    }
    done
}

/// A line with one trailing carriage return removed, so that files with
/// `\r\n` line ends parse as files with `\n` line ends do.
pub open spec fn strip_cr(line: Seq<char>) -> Seq<char> {
    if line.len() > 0 && line.last() == '\r' {
        line.drop_last()
    } else {
        line
    }
}

pub fn strip_trailing_cr(line: &str) -> (r: &str)
    ensures
        r@ == strip_cr(line@),
{
    let n = line.unicode_len();
    if n > 0 && line.get_char(n - 1) == '\r' {
        let r = line.substring_char(0, n - 1);
        proof {
            assert(line@.subrange(0, n as int - 1) =~= line@.drop_last());
        }
        r
    } else {
        line
    }
}

/// The given lines with the empty ones left out, order kept.
pub open spec fn keep_nonempty(lines: Seq<Seq<char>>) -> Seq<Seq<char>>
    decreases lines.len(),
{
    if lines.len() == 0 {
        Seq::empty()
    } else {
        let rest = keep_nonempty(lines.drop_last());
        if lines.last().len() > 0 {
            rest.push(lines.last())
        } else {
            rest
        }
    }
}

/// The lines of a file that carry content: split on `\n`, each stripped of a
/// trailing `\r`, blank lines dropped.
pub open spec fn content_lines(text: Seq<char>) -> Seq<Seq<char>> {
    keep_nonempty(split_on(text, '\n').map_values(|l: Seq<char>| strip_cr(l)))
}

pub fn content_lines_of(text: &str) -> (r: Vec<String>)
    ensures
        r@.map_values(|l: String| l@) == content_lines(text@),
{
    let raw = split_fields(text, '\n');
    let ghost stripped = raw@.map_values(|l: String| l@).map_values(|l: Seq<char>| strip_cr(l));
    let mut out: Vec<String> = Vec::new();
    let mut i: usize = 0;
    while i < raw.len()
        invariant
            stripped == raw@.map_values(|l: String| l@).map_values(|l: Seq<char>| strip_cr(l)),
            i <= raw@.len(),
            out@.map_values(|l: String| l@) == keep_nonempty(stripped.subrange(0, i as int)),
        decreases raw@.len() - i,
    {
        let ghost out0 = out@.map_values(|l: String| l@);
        let line = strip_trailing_cr(raw[i].as_str());
        if !line.is_empty() {
            let kept = line.to_owned();
            out.push(kept);
        }
        proof {
            let prefix = stripped.subrange(0, i as int + 1);
            assert(prefix.drop_last() =~= stripped.subrange(0, i as int));
            assert(prefix.last() == strip_cr(raw@.map_values(|l: String| l@)[i as int]));
            assert(out@.map_values(|l: String| l@) =~~= keep_nonempty(prefix));
        }
        i = i + 1;
    }
    proof {
        assert(stripped.subrange(0, stripped.len() as int) =~= stripped);
    }
    out
}

/// The blank characters the prompt loop trims: the ASCII whitespace set.
pub open spec fn is_blank(c: char) -> bool {
    c == ' ' || c == '\t' || c == '\n' || c == '\r' || c == '\u{c}'
}

pub fn blank_char(c: char) -> (r: bool)
    ensures
        r == is_blank(c),
{
    c == ' ' || c == '\t' || c == '\n' || c == '\r' || c == '\u{c}'
}

pub open spec fn trim_front(s: Seq<char>) -> Seq<char>
    decreases s.len(),
{
    if s.len() > 0 && is_blank(s[0]) {
        trim_front(s.drop_first())
    } else {
        s
    }
}

pub open spec fn trim_back(s: Seq<char>) -> Seq<char>
    decreases s.len(),
{
    if s.len() > 0 && is_blank(s.last()) {
        trim_back(s.drop_last())
    } else {
        s
    }
}

/// `s` with blank characters removed from both ends.
pub open spec fn trimmed(s: Seq<char>) -> Seq<char> {
    trim_back(trim_front(s))
}

pub fn trim(s: &str) -> (r: &str)
    ensures
        r@ == trimmed(s@),
{
    let n = s.unicode_len();
    let mut lo: usize = 0;
    proof {
        assert(s@.subrange(0, n as int) =~= s@);
    }
    while lo < n && blank_char(s.get_char(lo))
        invariant
            n == s@.len(),
            lo <= n,
            trim_front(s@) == trim_front(s@.subrange(lo as int, n as int)),
        decreases n - lo,
    {
        proof {
            let rem = s@.subrange(lo as int, n as int);
            assert(rem[0] == s@[lo as int]);
            assert(rem.drop_first() =~= s@.subrange(lo as int + 1, n as int));
        }
        lo = lo + 1;
    }
    proof {
        let rem = s@.subrange(lo as int, n as int);
        if lo < n {
            assert(rem[0] == s@[lo as int]);
        }
        assert(trim_front(rem) == rem);
    }
    let mut hi: usize = n;
    while hi > lo && blank_char(s.get_char(hi - 1))
        invariant
            n == s@.len(),
            lo <= hi <= n,
            trim_front(s@) == trim_front(s@.subrange(lo as int, n as int)),
            trim_front(s@.subrange(lo as int, n as int)) == s@.subrange(lo as int, n as int),
            trimmed(s@) == trim_back(s@.subrange(lo as int, hi as int)),
        decreases hi,
    {
        proof {
            let cur = s@.subrange(lo as int, hi as int);
            assert(cur.last() == s@[hi as int - 1]);
            assert(cur.drop_last() =~= s@.subrange(lo as int, hi as int - 1));
        }
        hi = hi - 1;
    }
    proof {
        let cur = s@.subrange(lo as int, hi as int);
        if hi > lo {
            assert(cur.last() == s@[hi as int - 1]);
        }
        assert(trim_back(cur) == cur);
    }
    s.substring_char(lo, hi)
}

} // verus!
