//! Splitting a flat text into lines and joining lines back into a flat text.
//!
//! A document is stored as lines of Unicode scalar values. Loading splits the
//! full text at line breaks: a line feed ends a line, a carriage return
//! immediately before a line feed is dropped, and a trailing line feed does
//! not open a final empty line (an empty text still yields one empty line).
//! Saving joins the lines with single line feeds and adds no trailing one.

use vstd::prelude::*;

verus! {

/// The sequence-of-characters view of each line in a vector of lines.
pub open spec fn lines_view(ls: Seq<Vec<char>>) -> Seq<Seq<char>> {
    Seq::new(ls.len(), |i: int| ls[i]@)
}

/// Index of the first line feed in `s`, or `s.len()` if there is none.
pub open spec fn find_nl(s: Seq<char>) -> int
    decreases s.len(),
{
    if s.len() == 0 {
        0
    } else if s[0] == '\n' {
        0
    } else {
        1 + find_nl(s.skip(1))
    }
}

/// `l` without a trailing carriage return, if it has one.
pub open spec fn trim_cr(l: Seq<char>) -> Seq<char> {
    if l.len() > 0 && l.last() == '\r' {
        l.drop_last()
    } else {
        l
    }
}

/// The lines of the text `s`, split at line breaks.
pub open spec fn split_text(s: Seq<char>) -> Seq<Seq<char>>
    decreases s.len(),
{
    let i = find_nl(s);
    if 0 <= i && i < s.len() {
        seq![trim_cr(s.take(i))] + (if i + 1 == s.len() {
            Seq::empty()
        } else {
            split_text(s.skip(i + 1))
        })
    } else {
        seq![s]
    }
}

/// The lines joined by single line feeds, with no trailing line feed.
pub open spec fn join_text(lines: Seq<Seq<char>>) -> Seq<char>
    decreases lines.len(),
{
    if lines.len() == 0 {
        Seq::empty()
    } else if lines.len() == 1 {
        lines[0]
    } else {
        lines[0] + seq!['\n'] + join_text(lines.skip(1))
    }
}

pub proof fn lemma_find_nl_bounds(s: Seq<char>)
    ensures
        0 <= find_nl(s) <= s.len(),
        find_nl(s) < s.len() ==> s[find_nl(s)] == '\n',
        forall|j: int| 0 <= j < find_nl(s) ==> s[j] != '\n',
    decreases s.len(),
{
    if s.len() == 0 {
    } else if s[0] == '\n' {
    } else {
        lemma_find_nl_bounds(s.skip(1));
        assert forall|j: int| 0 <= j < find_nl(s) implies s[j] != '\n' by {
            if j > 0 {
                assert(s.skip(1)[j - 1] == s[j]);
            }
        }
    }
}

/// Splitting always yields at least one line.
pub proof fn lemma_split_text_len(s: Seq<char>)
    ensures
        split_text(s).len() >= 1,
{
}

pub proof fn lemma_find_nl_push(s: Seq<char>, c: char)
    ensures
        find_nl(s) < s.len() ==> find_nl(s.push(c)) == find_nl(s),
        find_nl(s) == s.len() && c == '\n' ==> find_nl(s.push(c)) == s.len(),
        find_nl(s) == s.len() && c != '\n' ==> find_nl(s.push(c)) == s.len() + 1,
    decreases s.len(),
{
    lemma_find_nl_bounds(s);
    if s.len() == 0 {
        assert(s.push(c)[0] == c);
        assert(s.push(c).skip(1) =~= Seq::<char>::empty());
        assert(find_nl(Seq::<char>::empty()) == 0);
    } else {
        lemma_find_nl_push(s.skip(1), c);
        assert(s.push(c)[0] == s[0]);
        assert(s.push(c).skip(1) =~= s.skip(1).push(c));
    }
}

/// How the line decomposition of a text changes when one character is
/// appended: a line feed seals the current last line (dropping a carriage
/// return just before it), any other character extends the last line, and
/// right after a line feed a fresh last line is opened.
pub proof fn lemma_split_push(s: Seq<char>, c: char)
    ensures
        (s.len() == 0 || s.last() != '\n') && c == '\n' ==> split_text(s.push(c)) =~~= split_text(
            s,
        ).update(split_text(s).len() - 1, trim_cr(split_text(s).last())),
        (s.len() == 0 || s.last() != '\n') && c != '\n' ==> split_text(s.push(c)) =~~= split_text(
            s,
        ).update(split_text(s).len() - 1, split_text(s).last().push(c)),
        s.len() > 0 && s.last() == '\n' && c == '\n' ==> split_text(s.push(c)) =~~= split_text(
            s,
        ).push(Seq::empty()),
        s.len() > 0 && s.last() == '\n' && c != '\n' ==> split_text(s.push(c)) =~~= split_text(
            s,
        ).push(seq![c]),
    decreases s.len(),
{
    lemma_find_nl_bounds(s);
    lemma_find_nl_push(s, c);
    let t = s.push(c);
    let i = find_nl(s);
    if i == s.len() {
        // No line feed anywhere in s, so s does not end with one.
        if s.len() > 0 {
            assert(s.last() != '\n');
        }
        if c == '\n' {
            assert(find_nl(t) == s.len() < t.len());
            assert(t.take(i) =~= s);
            assert(split_text(t) =~= seq![trim_cr(s)]);
            assert(split_text(s).update(0, trim_cr(split_text(s).last())) =~= seq![trim_cr(s)]);
        } else {
            assert(find_nl(t) == t.len());
            assert(split_text(t) =~= seq![t]);
            assert(split_text(s).update(0, split_text(s).last().push(c)) =~= seq![s.push(c)]);
        }
    } else {
        // 0 <= i < s.len(): the first line of s is settled; appending a
        // character only changes what follows the first line feed.
        assert(find_nl(t) == i < t.len());
        assert(t.take(i) =~= s.take(i));
        let a = seq![trim_cr(s.take(i))];
        if i + 1 == s.len() {
            // The line feed is the last character of s.
            assert(s.last() == '\n');
            assert(split_text(s) =~= a);
            assert(t.skip(i + 1) =~= seq![c]);
            if c == '\n' {
                assert(seq![c].take(0) =~= Seq::<char>::empty());
                assert(split_text(seq![c]) =~= seq![Seq::<char>::empty()]);
                assert(split_text(t) =~~= a + seq![Seq::<char>::empty()]);
                assert(a + seq![Seq::<char>::empty()] =~~= split_text(s).push(Seq::empty()));
            } else {
                assert(seq![c].skip(1) =~= Seq::<char>::empty());
                assert(find_nl(Seq::<char>::empty()) == 0);
                assert(find_nl(seq![c]) == 1);
                assert(split_text(seq![c]) =~= seq![seq![c]]);
                assert(split_text(t) =~~= a + seq![seq![c]]);
                assert(a + seq![seq![c]] =~~= split_text(s).push(seq![c]));
            }
        } else {
            let r = s.skip(i + 1);
            lemma_split_text_len(r);
            lemma_split_push(r, c);
            assert(r.len() > 0);
            assert(r.last() == s.last()) by {
                assert(r[r.len() - 1] == s[s.len() - 1]);
            }
            assert(t.skip(i + 1) =~= r.push(c));
            let b = split_text(r);
            assert(split_text(s) == a + b);
            assert(split_text(t) == a + split_text(r.push(c)));
            assert((a + b).len() == 1 + b.len());
            assert((a + b).last() == b.last());
            if s.last() == '\n' {
                if c == '\n' {
                    assert(split_text(r.push(c)) =~~= b.push(Seq::empty()));
                    assert(a + b.push(Seq::<char>::empty()) =~~= (a + b).push(Seq::empty()));
                } else {
                    assert(split_text(r.push(c)) =~~= b.push(seq![c]));
                    assert(a + b.push(seq![c]) =~~= (a + b).push(seq![c]));
                }
            } else {
                if c == '\n' {
                    assert(split_text(r.push(c)) =~~= b.update(b.len() - 1, trim_cr(b.last())));
                    assert(a + b.update(b.len() - 1, trim_cr(b.last())) =~~= (a + b).update(
                        (a + b).len() - 1,
                        trim_cr((a + b).last()),
                    ));
                } else {
                    assert(split_text(r.push(c)) =~~= b.update(b.len() - 1, b.last().push(c)));
                    assert(a + b.update(b.len() - 1, b.last().push(c)) =~~= (a + b).update(
                        (a + b).len() - 1,
                        (a + b).last().push(c),
                    ));
                }
            }
        }
    }
}

pub proof fn lemma_find_nl_concat(a: Seq<char>, b: Seq<char>)
    requires
        !a.contains('\n'),
    ensures
        find_nl(a + seq!['\n'] + b) == a.len(),
    decreases a.len(),
{
    let s = a + seq!['\n'] + b;
    if a.len() == 0 {
        assert(s[0] == '\n');
    } else {
        assert(s[0] == a[0]);
        assert(a[0] != '\n') by {
            if a[0] == '\n' {
                assert(a.contains('\n'));
            }
        }
        assert(!a.skip(1).contains('\n')) by {
            if a.skip(1).contains('\n') {
                let j = choose|j: int| 0 <= j < a.skip(1).len() && a.skip(1)[j] == '\n';
                assert(a[j + 1] == '\n');
                assert(a.contains('\n'));
            }
        }
        lemma_find_nl_concat(a.skip(1), b);
        assert(s.skip(1) =~= a.skip(1) + seq!['\n'] + b);
    }
}

/// How the joined text grows line by line: each line after the first is
/// preceded by a single line feed.
pub proof fn lemma_join_take_step(l: Seq<Seq<char>>, i: int)
    requires
        0 <= i < l.len(),
    ensures
        join_text(l.take(i + 1)) == join_text(l.take(i)) + (if i == 0 {
            Seq::<char>::empty()
        } else {
            seq!['\n']
        }) + l[i],
    decreases i,
{
    if i == 0 {
        assert(l.take(1) =~= seq![l[0]]);
        assert(l.take(0) =~= Seq::<Seq<char>>::empty());
        assert(Seq::<char>::empty() + Seq::<char>::empty() + l[0] =~= l[0]);
    } else {
        let m = l.skip(1);
        lemma_join_take_step(m, i - 1);
        assert(l.take(i + 1).skip(1) =~= m.take(i));
        assert(l.take(i + 1)[0] == l[0]);
        assert(join_text(l.take(i + 1)) == l[0] + seq!['\n'] + join_text(m.take(i)));
        if i == 1 {
            assert(l.take(1) =~= seq![l[0]]);
            assert(m.take(1) =~= seq![l[1]]);
            assert(join_text(m.take(1)) == l[1]);
            assert(join_text(l.take(1)) == l[0]);
        } else {
            assert(l.take(i).skip(1) =~= m.take(i - 1));
            assert(l.take(i)[0] == l[0]);
            assert(join_text(l.take(i)) == l[0] + seq!['\n'] + join_text(m.take(i - 1)));
            assert(l[0] + seq!['\n'] + (join_text(m.take(i - 1)) + seq!['\n'] + m[i - 1]) =~= (l[0]
                + seq!['\n'] + join_text(m.take(i - 1))) + seq!['\n'] + l[i]);
        }
    }
}

/// Saving and loading are inverse on documents without embedded line breaks:
/// joining lines with line feeds and splitting the result reproduces exactly
/// the same lines. The requirements exclude the genuinely ambiguous inputs: a
/// line feed inside a line, a carriage return ending a non-last line (both
/// would be read back as a line break), and a trailing empty line (the joined
/// text carries no trailing line feed that could reproduce it).
pub proof fn lemma_split_join_round_trip(lines: Seq<Seq<char>>)
    requires
        lines.len() >= 1,
        forall|i: int| 0 <= i < lines.len() ==> !(#[trigger] lines[i]).contains('\n'),
        forall|i: int|
            0 <= i < lines.len() - 1 ==> ((#[trigger] lines[i]).len() == 0 || lines[i].last()
                != '\r'),
        lines.len() > 1 ==> lines.last().len() > 0,
    ensures
        split_text(join_text(lines)) == lines,
    decreases lines.len(),
{
    let s = join_text(lines);
    if lines.len() == 1 {
        assert(s == lines[0]);
        lemma_find_nl_bounds(s);
        if find_nl(s) < s.len() {
            assert(s[find_nl(s)] == '\n');
            assert(lines[0].contains('\n'));
        }
        assert(split_text(s) =~~= lines);
    } else {
        let l0 = lines[0];
        let rest = lines.skip(1);
        assert(s == l0 + seq!['\n'] + join_text(rest));
        lemma_find_nl_concat(l0, join_text(rest));
        let i = l0.len() as int;
        assert(join_text(rest).len() > 0) by {
            if rest.len() == 1 {
                assert(rest[0] == lines.last());
            } else {
                assert(join_text(rest) == rest[0] + seq!['\n'] + join_text(rest.skip(1)));
            }
        }
        assert(0 <= i < s.len());
        assert(s.take(i) =~= l0);
        assert(trim_cr(l0) == l0);
        assert(i + 1 < s.len());
        assert(s.skip(i + 1) =~= join_text(rest));
        assert forall|k: int| 0 <= k < rest.len() implies !(#[trigger] rest[k]).contains('\n') by {
            assert(rest[k] == lines[k + 1]);
        }
        assert forall|k: int| 0 <= k < rest.len() - 1 implies ((#[trigger] rest[k]).len() == 0
            || rest[k].last() != '\r') by {
            assert(rest[k] == lines[k + 1]);
        }
        assert(rest.last() == lines.last());
        lemma_split_join_round_trip(rest);
        assert(split_text(s) == seq![l0] + rest);
        assert(seq![l0] + rest =~~= lines);
    }
}

/// Split a full text into its lines, as `split_text` describes.
pub fn split_chars(text: &Vec<char>) -> (r: Vec<Vec<char>>)
    ensures
        lines_view(r@) == split_text(text@),
{
    let mut lines: Vec<Vec<char>> = Vec::new();
    let mut cur: Vec<char> = Vec::new();
    let mut i: usize = 0;
    proof {
        assert(text@.take(0) =~= Seq::<char>::empty());
        assert(find_nl(Seq::<char>::empty()) == 0);
        assert(lines_view(lines@).push(cur@) =~~= split_text(Seq::<char>::empty()));
    }
    while i < text.len()
        invariant
            0 <= i <= text@.len(),
            (i == 0 || text@[i - 1] != '\n') ==> lines_view(lines@).push(cur@) == split_text(
                text@.take(i as int),
            ),
            (i > 0 && text@[i - 1] == '\n') ==> lines_view(lines@) == split_text(
                text@.take(i as int),
            ) && cur@ == Seq::<char>::empty(),
        decreases text@.len() - i,
    {
        let ghost prefix = text@.take(i as int);
        let ghost lines0 = lines@;
        let ghost cur0 = cur@;
        let c = text[i];
        proof {
            assert(text@.take(i + 1) =~= prefix.push(c));
            assert(prefix.len() == 0 || prefix.last() == text@[i - 1]);
            lemma_split_push(prefix, c);
            lemma_split_text_len(prefix);
        }
        if c == '\n' {
            if cur.len() > 0 && cur[cur.len() - 1] == '\r' {
                cur.pop();
                proof {
                    assert(cur@ =~= trim_cr(cur0));
                }
            }
            assert(cur@ == trim_cr(cur0));
            lines.push(cur);
            cur = Vec::new();
            proof {
                if i == 0 || text@[i - 1] != '\n' {
                    let pre = lines_view(lines0).push(cur0);
                    assert(pre == split_text(prefix));
                    assert(lines_view(lines@) =~~= pre.update(pre.len() - 1, trim_cr(pre.last())));
                } else {
                    assert(lines_view(lines@) =~~= lines_view(lines0).push(Seq::empty()));
                }
                assert(lines_view(lines@) == split_text(text@.take(i + 1)));
            }
        } else {
            cur.push(c);
            proof {
                if i == 0 || text@[i - 1] != '\n' {
                    let pre = lines_view(lines0).push(cur0);
                    assert(pre == split_text(prefix));
                    assert(lines_view(lines@).push(cur@) =~~= pre.update(
                        pre.len() - 1,
                        pre.last().push(c),
                    ));
                } else {
                    assert(cur@ =~= seq![c]);
                    assert(lines_view(lines@).push(cur@) =~~= split_text(prefix).push(seq![c]));
                }
                assert(lines_view(lines@).push(cur@) == split_text(text@.take(i + 1)));
            }
        }
        i = i + 1;
    }
    proof {
        assert(text@.take(text@.len() as int) =~= text@);
    }
    if text.len() == 0 || text[text.len() - 1] != '\n' {
        let ghost lines0 = lines@;
        lines.push(cur);
        proof {
            assert(lines_view(lines@) =~~= lines_view(lines0).push(cur@));
        }
    }
    lines
}

/// Join lines into a full text, as `join_text` describes.
pub fn join_chars(lines: &Vec<Vec<char>>) -> (r: Vec<char>)
    ensures
        r@ == join_text(lines_view(lines@)),
{
    let ghost lv = lines_view(lines@);
    let mut out: Vec<char> = Vec::new();
    let mut i: usize = 0;
    while i < lines.len()
        invariant
            0 <= i <= lines@.len(),
            lv == lines_view(lines@),
            out@ == join_text(lv.take(i as int)),
        decreases lines@.len() - i,
    {
        let ghost sep: Seq<char> = if i == 0 {
            Seq::empty()
        } else {
            seq!['\n']
        };
        if i > 0 {
            out.push('\n');
        }
        let ghost base = out@;
        proof {
            assert(base =~= join_text(lv.take(i as int)) + sep);
        }
        let line = &lines[i];
        let mut j: usize = 0;
        while j < line.len()
            invariant
                0 <= j <= line@.len(),
                line@ == lv[i as int],
                out@ == base + line@.take(j as int),
            decreases line@.len() - j,
        {
            out.push(line[j]);
            proof {
                assert(line@.take(j + 1) =~= line@.take(j as int).push(line@[j as int]));
                assert(out@ =~= base + line@.take(j + 1));
            }
            j = j + 1;
        }
        proof {
            lemma_join_take_step(lv, i as int);
            assert(line@.take(line@.len() as int) =~= line@);
            assert(out@ =~= join_text(lv.take(i as int)) + sep + lv[i as int]);
        }
        i = i + 1;
    }
    proof {
        assert(lv.take(lines@.len() as int) =~= lv);
    }
    out
}

} // verus!
