use vstd::prelude::*;

verus! {

/// Whether `c` has the Unicode `White_Space` property.
pub open spec fn is_blank(c: char) -> bool {
    ||| '\u{09}' <= c <= '\u{0D}'
    ||| c == ' '
    ||| c == '\u{85}'
    ||| c == '\u{A0}'
    ||| c == '\u{1680}'
    ||| '\u{2000}' <= c <= '\u{200A}'
    ||| c == '\u{2028}'
    ||| c == '\u{2029}'
    ||| c == '\u{202F}'
    ||| c == '\u{205F}'
    ||| c == '\u{3000}'
}

/// Executable test for [`is_blank`].
pub fn char_is_blank(c: char) -> (r: bool)
    ensures
        r == is_blank(c),
{
    ('\u{09}' <= c && c <= '\u{0D}') || c == ' ' || c == '\u{85}' || c == '\u{A0}' || c
        == '\u{1680}' || ('\u{2000}' <= c && c <= '\u{200A}') || c == '\u{2028}' || c
        == '\u{2029}' || c == '\u{202F}' || c == '\u{205F}' || c == '\u{3000}'
}


/// `s` without its leading blank characters.
pub open spec fn trim_start(s: Seq<char>) -> Seq<char>
    decreases s.len(),
{
    if s.len() > 0 && is_blank(s[0]) {
        trim_start(s.drop_first())
    } else {
        s
    }
}

/// `s` without its trailing blank characters.
pub open spec fn trim_end(s: Seq<char>) -> Seq<char>
    decreases s.len(),
{
    if s.len() > 0 && is_blank(s.last()) {
        trim_end(s.drop_last())
    } else {
        s
    }
}

/// `s` without leading and trailing blank characters.
pub open spec fn trim(s: Seq<char>) -> Seq<char> {
    trim_end(trim_start(s))
}

/// The pieces of `s` between occurrences of `d`, left to right: one more
/// piece than there are occurrences of `d`, none of them holding `d`.
pub open spec fn split_on(s: Seq<char>, d: char) -> Seq<Seq<char>>
    decreases s.len(),
{
    if s.len() == 0 {
        seq![Seq::empty()]
    } else {
        let rest = split_on(s.drop_last(), d);
        if s.last() == d {
            rest.push(Seq::empty())
        } else {
            rest.update(rest.len() - 1, rest.last().push(s.last()))
        }
    }
}

/// The character that separates statements on a line.
pub const DELIMITER: char = ';';

/// The statements that a line holds: its pieces between delimiters, each
/// trimmed, left to right.
pub open spec fn statements(line: Seq<char>) -> Seq<Seq<char>> {
    split_on(line, DELIMITER).map_values(|p: Seq<char>| trim(p))
}

/// A line without the carriage return that ended it, if any.
pub open spec fn strip_cr(l: Seq<char>) -> Seq<char> {
    if l.len() > 0 && l.last() == '\r' {
        l.drop_last()
    } else {
        l
    }
}

/// The lines of a text: its pieces between newlines, each without a carriage
/// return before its newline; a text that ends in a newline has no empty last
/// line after it, and an empty text has no lines.
pub open spec fn lines(s: Seq<char>) -> Seq<Seq<char>> {
    let parts = split_on(s, '\n');
    let ended = parts.drop_last().map_values(|l: Seq<char>| strip_cr(l));
    if parts.last().len() == 0 {
        ended
    } else {
        ended.push(parts.last())
    }
}

/// The statements of a script: those of each of its lines, line after line,
/// then a closing `exit`.
pub open spec fn script_statements(s: Seq<char>) -> Seq<Seq<char>> {
    lines(s).map_values(|l: Seq<char>| statements(l)).flatten().push(seq!['e', 'x', 'i', 't'])
}

/// The character views of a sequence of strings.
pub open spec fn views(v: Seq<String>) -> Seq<Seq<char>> {
    v.map_values(|x: String| x@)
}

/// Every text has at least one piece, so every line holds a statement.
pub proof fn lemma_split_on_nonempty(s: Seq<char>, d: char)
    ensures
        split_on(s, d).len() >= 1,
    decreases s.len(),
{
    if s.len() > 0 {
        lemma_split_on_nonempty(s.drop_last(), d);
    }
}

/// How many times `d` occurs in `s`.
pub open spec fn count_of(s: Seq<char>, d: char) -> nat
    decreases s.len(),
{
    if s.len() == 0 {
        0
    } else {
        count_of(s.drop_last(), d) + if s.last() == d {
            1nat
        } else {
            0nat
        }
    }
}

/// The pieces put back together, with `d` between each two of them.
pub open spec fn join(parts: Seq<Seq<char>>, d: char) -> Seq<char>
    decreases parts.len(),
{
    if parts.len() == 0 {
        Seq::empty()
    } else if parts.len() == 1 {
        parts[0]
    } else {
        join(parts.drop_last(), d).push(d) + parts.last()
    }
}

/// Splitting loses and invents nothing: `n` occurrences of `d` give `n + 1`
/// pieces, none of which holds `d`, and joining them with `d` gives `s` back.
pub proof fn lemma_split_on_exact(s: Seq<char>, d: char)
    ensures
        split_on(s, d).len() == count_of(s, d) + 1,
        forall|i: int, j: int|
            0 <= i < split_on(s, d).len() && 0 <= j < split_on(s, d)[i].len() ==> split_on(
                s,
                d,
            )[i][j] != d,
        join(split_on(s, d), d) == s,
    decreases s.len(),
{
    if s.len() == 0 {
        assert(join(split_on(s, d), d) =~= s);
    } else {
        let t = s.drop_last();
        let c = s.last();
        lemma_split_on_exact(t, d);
        let rest = split_on(t, d);
        let parts = split_on(s, d);
        assert(t.push(c) =~= s);
        if c == d {
            assert(parts.drop_last() =~= rest);
            assert(join(parts, d) =~= s);
        } else {
            if rest.len() == 1 {
                assert(join(rest, d) == rest[0]);
                assert(join(parts, d) =~= s);
            } else {
                assert(parts.drop_last() =~= rest.drop_last());
                assert(join(parts, d) =~= join(rest, d).push(c));
            }
            assert forall|i: int, j: int|
                0 <= i < parts.len() && 0 <= j < parts[i].len() implies parts[i][j] != d by {
                if i == parts.len() - 1 && j == parts[i].len() - 1 {
                } else {
                    assert(parts[i][j] == rest[i][j]);
                }
            }
        }
    }
}

/// A line with `n` delimiters holds `n + 1` statements: the pieces between
/// its delimiters, taken left to right, each trimmed. The pieces hold no
/// delimiter and, joined with delimiters, give the line back.
pub proof fn lemma_statements_of_line(line: Seq<char>)
    ensures
        statements(line).len() == count_of(line, DELIMITER) + 1,
        forall|i: int|
            0 <= i < statements(line).len() ==> statements(line)[i] == trim(
                split_on(line, DELIMITER)[i],
            ),
        forall|i: int, j: int|
            0 <= i < split_on(line, DELIMITER).len() && 0 <= j < split_on(line, DELIMITER)[i].len()
                ==> split_on(line, DELIMITER)[i][j] != DELIMITER,
        join(split_on(line, DELIMITER), DELIMITER) == line,
{
    lemma_split_on_exact(line, DELIMITER);
}

/// A line without a delimiter holds exactly one statement: the line, trimmed.
pub proof fn lemma_undelimited_line(line: Seq<char>)
    requires
        !line.contains(DELIMITER),
    ensures
        statements(line) == seq![trim(line)],
{
    lemma_single_piece(line, DELIMITER);
    assert(statements(line) =~= seq![trim(line)]);
}

/// Where `d` does not occur in `s`, `s` is its only piece.
pub proof fn lemma_single_piece(s: Seq<char>, d: char)
    requires
        !s.contains(d),
    ensures
        split_on(s, d) == seq![s],
    decreases s.len(),
{
    if s.len() == 0 {
        assert(s =~= Seq::<char>::empty());
        assert(split_on(s, d) =~= seq![s]);
    } else {
        let t = s.drop_last();
        assert(!t.contains(d)) by {
            if t.contains(d) {
                let k = choose|k: int| 0 <= k < t.len() && t[k] == d;
                assert(s[k] == d);
            }
        }
        lemma_single_piece(t, d);
        assert(s.last() != d) by {
            assert(s[s.len() - 1] == s.last());
        }
        assert(t.push(s.last()) =~= s);
        let rest = split_on(t, d);
        assert(rest.last() == t);
        assert(split_on(s, d) == rest.update(0, t.push(s.last())));
        assert(split_on(s, d) =~= seq![s]);
    }
}

/// Relies on `String`'s `FromIterator<&char>`: the characters in order.
#[verifier::external_body]
fn string_of(cs: &Vec<char>, from: usize, to: usize) -> (r: String)
    requires
        from <= to <= cs@.len(),
    ensures
        r@ == cs@.subrange(from as int, to as int),
{
    cs[from..to].iter().collect()
}

/// The characters of `s`, in order.
pub fn chars_of(s: &str) -> (r: Vec<char>)
    ensures
        r@ == s@,
{
    broadcast use vstd::string::group_string_axioms;

    let mut r: Vec<char> = Vec::new();
    for c in it: s.chars()
        invariant
            it.seq() == s@,
            r@ == s@.take(it.index() as int),
    {
        r.push(c);
        assert(r@ =~= s@.take(it.index() as int + 1));
    }
    assert(r@ =~= s@);
    r
}

/// The characters of `cs` from `lo` to `hi`, trimmed of blanks at both ends.
pub fn trimmed(cs: &Vec<char>, lo: usize, hi: usize) -> (r: String)
    requires
        lo <= hi <= cs@.len(),
    ensures
        r@ == trim(cs@.subrange(lo as int, hi as int)),
{
    let mut i: usize = lo;
    while i < hi && char_is_blank(cs[i])
        invariant
            lo <= i <= hi <= cs@.len(),
            trim_start(cs@.subrange(lo as int, hi as int)) == trim_start(
                cs@.subrange(i as int, hi as int),
            ),
        decreases hi - i,
    {
        assert(cs@.subrange(i as int, hi as int).drop_first() =~= cs@.subrange(
            i as int + 1,
            hi as int,
        ));
        i = i + 1;
    }
    assert(trim_start(cs@.subrange(i as int, hi as int)) == cs@.subrange(i as int, hi as int));
    let mut j: usize = hi;
    while j > i && char_is_blank(cs[j - 1])
        invariant
            lo <= i <= j <= hi <= cs@.len(),
            trim_end(cs@.subrange(i as int, hi as int)) == trim_end(
                cs@.subrange(i as int, j as int),
            ),
        decreases j - i,
    {
        assert(cs@.subrange(i as int, j as int).drop_last() =~= cs@.subrange(
            i as int,
            j as int - 1,
        ));
        j = j - 1;
    }
    assert(trim_end(cs@.subrange(i as int, j as int)) == cs@.subrange(i as int, j as int));
    string_of(cs, i, j)
}


/// Appends to `out` the statements held by the characters of `cs` from `lo`
/// to `hi`.
pub fn push_statements(cs: &Vec<char>, lo: usize, hi: usize, out: &mut Vec<String>)
    requires
        lo <= hi <= cs@.len(),
    ensures
        views(final(out)@) == views(old(out)@) + statements(cs@.subrange(lo as int, hi as int)),
{
    let ghost base = views(out@);
    let mut start: usize = lo;
    let mut i: usize = lo;
    proof {
        assert(cs@.subrange(lo as int, lo as int) =~= Seq::<char>::empty());
        assert(split_on(Seq::<char>::empty(), DELIMITER).drop_last() =~= Seq::<Seq<char>>::empty());
        assert(views(out@) =~= base + Seq::<Seq<char>>::empty().map_values(|p: Seq<char>| trim(p)));
    }
    while i < hi
        invariant
            lo <= start <= i <= hi <= cs@.len(),
            split_on(cs@.subrange(lo as int, i as int), DELIMITER).len() >= 1,
            split_on(cs@.subrange(lo as int, i as int), DELIMITER).last() == cs@.subrange(
                start as int,
                i as int,
            ),
            views(out@) == base + split_on(
                cs@.subrange(lo as int, i as int),
                DELIMITER,
            ).drop_last().map_values(|p: Seq<char>| trim(p)),
        decreases hi - i,
    {
        let ghost prev = split_on(cs@.subrange(lo as int, i as int), DELIMITER);
        let ghost next_seg = cs@.subrange(lo as int, i as int + 1);
        assert(next_seg.drop_last() =~= cs@.subrange(lo as int, i as int));
        assert(next_seg.last() == cs@[i as int]);
        if cs[i] == DELIMITER {
            let piece = trimmed(cs, start, i);
            let ghost before = out@;
            out.push(piece);
            proof {
                let nxt = split_on(next_seg, DELIMITER);
                assert(nxt == prev.push(Seq::empty()));
                assert(nxt.drop_last() =~= prev);
                assert(prev =~= prev.drop_last().push(prev.last()));
                assert(prev.map_values(|p: Seq<char>| trim(p)) =~= prev.drop_last().map_values(
                    |p: Seq<char>| trim(p),
                ).push(trim(prev.last())));
                assert(views(out@) =~= views(before).push(piece@));
                assert(views(out@) =~= base + nxt.drop_last().map_values(|p: Seq<char>| trim(p)));
                assert(cs@.subrange(i as int + 1, i as int + 1) =~= Seq::<char>::empty());
            }
            start = i + 1;
        } else {
            proof {
                let nxt = split_on(next_seg, DELIMITER);
                assert(nxt.drop_last() =~= prev.drop_last());
                assert(nxt.last() =~= cs@.subrange(start as int, i as int + 1));
            }
        }
        i = i + 1;
    }
    let piece = trimmed(cs, start, hi);
    let ghost before = out@;
    out.push(piece);
    proof {
        assert(views(out@) =~= views(before).push(piece@));
        let all = split_on(cs@.subrange(lo as int, hi as int), DELIMITER);
        assert(all =~= all.drop_last().push(all.last()));
        assert(all.map_values(|p: Seq<char>| trim(p)) =~= all.drop_last().map_values(
            |p: Seq<char>| trim(p),
        ).push(trim(all.last())));
        assert(views(out@) =~= base + all.map_values(|p: Seq<char>| trim(p)));
    }
}

/// Splits `line` into its statements: the pieces between delimiters, each
/// trimmed of blanks, in the order in which they stand.
pub fn split_statements(line: &str) -> (r: Vec<String>)
    ensures
        views(r@) == statements(line@),
{
    let cs = chars_of(line);
    let mut r: Vec<String> = Vec::new();
    push_statements(&cs, 0, cs.len(), &mut r);
    assert(cs@.subrange(0, cs@.len() as int) =~= line@);
    assert(views(r@) =~= statements(line@));
    r
}


/// Splits a script into its statements: those of each line in turn, then a
/// closing `exit`.
pub fn split_script(script: &str) -> (r: Vec<String>)
    ensures
        views(r@) == script_statements(script@),
{
    broadcast use vstd::seq_lib::group_seq_lib_default;

    let cs = chars_of(script);
    let n = cs.len();
    let mut out: Vec<String> = Vec::new();
    let mut start: usize = 0;
    let mut i: usize = 0;
    proof {
        assert(cs@.subrange(0, 0) =~= Seq::<char>::empty());
        assert(split_on(Seq::<char>::empty(), '\n').drop_last() =~= Seq::<Seq<char>>::empty());
        assert(Seq::<Seq<char>>::empty().map_values(|l: Seq<char>| statements(strip_cr(l))).flatten()
            =~= Seq::<Seq<char>>::empty());
    }
    while i < n
        invariant
            n == cs@.len(),
            cs@ == script@,
            start <= i <= n,
            split_on(cs@.subrange(0, i as int), '\n').len() >= 1,
            split_on(cs@.subrange(0, i as int), '\n').last() == cs@.subrange(
                start as int,
                i as int,
            ),
            views(out@) == split_on(cs@.subrange(0, i as int), '\n').drop_last().map_values(
                |l: Seq<char>| statements(strip_cr(l)),
            ).flatten(),
        decreases n - i,
    {
        let ghost prev = split_on(cs@.subrange(0, i as int), '\n');
        let ghost next_seg = cs@.subrange(0, i as int + 1);
        assert(next_seg.drop_last() =~= cs@.subrange(0, i as int));
        assert(next_seg.last() == cs@[i as int]);
        if cs[i] == '\n' {
            let end = if i > start && cs[i - 1] == '\r' {
                i - 1
            } else {
                i
            };
            assert(cs@.subrange(start as int, end as int) =~= strip_cr(
                cs@.subrange(start as int, i as int),
            ));
            let ghost before = out@;
            push_statements(&cs, start, end, &mut out);
            proof {
                let f = |l: Seq<char>| statements(strip_cr(l));
                let nxt = split_on(next_seg, '\n');
                assert(nxt == prev.push(Seq::empty()));
                assert(nxt.drop_last() =~= prev);
                assert(prev =~= prev.drop_last().push(prev.last()));
                assert(prev.map_values(f) =~= prev.drop_last().map_values(f).push(
                    f(prev.last()),
                ));
                prev.drop_last().map_values(f).lemma_flatten_push(f(prev.last()));
                assert(views(out@) =~= views(before) + f(prev.last()));
                assert(cs@.subrange(i as int + 1, i as int + 1) =~= Seq::<char>::empty());
            }
            start = i + 1;
        } else {
            proof {
                let nxt = split_on(next_seg, '\n');
                assert(nxt.drop_last() =~= prev.drop_last());
                assert(nxt.last() =~= cs@.subrange(start as int, i as int + 1));
            }
        }
        i = i + 1;
    }
    let ghost parts = split_on(script@, '\n');
    assert(cs@.subrange(0, n as int) =~= script@);
    let ghost f = |l: Seq<char>| statements(strip_cr(l));
    let ghost g = |l: Seq<char>| statements(l);
    let ghost ended = parts.drop_last().map_values(|l: Seq<char>| strip_cr(l));
    assert(ended.map_values(g) =~= parts.drop_last().map_values(f));
    if start < n {
        let ghost before = out@;
        push_statements(&cs, start, n, &mut out);
        proof {
            assert(ended.push(parts.last()).map_values(g) =~= ended.map_values(g).push(
                g(parts.last()),
            ));
            ended.map_values(g).lemma_flatten_push(g(parts.last()));
            assert(views(out@) =~= views(before) + g(parts.last()));
        }
    }
    let exit = "exit".to_owned();
    proof {
        broadcast use vstd::string::group_string_axioms;
        reveal_strlit("exit");
        assert(exit@ =~= seq!['e', 'x', 'i', 't']);
    }
    let ghost before = out@;
    out.push(exit);
    assert(views(out@) =~= views(before).push(seq!['e', 'x', 'i', 't']));
    out
}

} // verus!
