//! The settings file: one line per folder. Lines that start with "> " name
//! destinations, the other lines name source folders. In the older format,
//! with no "> " line, the first line is the single destination.
use vstd::prelude::*;
use crate::text::{chars_of, push_chars, string_of, copy_chars, push_char, push_str};
use crate::winpath::parts;

verus! {

/// The character sequences of a list of strings.
pub open spec fn strings(v: Seq<String>) -> Seq<Seq<char>> {
    v.map_values(|s: String| s@)
}

/// A line without the `\r` that ended it, if any.
pub open spec fn strip_cr(l: Seq<char>) -> Seq<char> {
    if l.len() > 0 && l.last() == '\r' {
        l.drop_last()
    } else {
        l
    }
}

/// Reading `t` from the start: the lines ended so far (by `\n`, with a `\r`
/// before it dropped) and the characters of the line still open.
pub open spec fn scan_lines(t: Seq<char>) -> (Seq<Seq<char>>, Seq<char>)
    decreases t.len(),
{
    if t.len() == 0 {
        (Seq::empty(), Seq::empty())
    } else {
        let (done, cur) = scan_lines(t.drop_last());
        if t.last() == '\n' {
            (done.push(strip_cr(cur)), Seq::empty())
        } else {
            (done, cur.push(t.last()))
        }
    }
}

/// The lines of `t` as `str::lines` gives them: split at `\n`, a `\r` before
/// each `\n` dropped, and no empty line after a final `\n`.
pub open spec fn text_lines(t: Seq<char>) -> Seq<Seq<char>> {
    let (done, cur) = scan_lines(t);
    if cur.len() > 0 {
        done.push(cur)
    } else {
        done
    }
}

/// The lines that are not empty, in order.
pub open spec fn nonempty(ls: Seq<Seq<char>>) -> Seq<Seq<char>>
    decreases ls.len(),
{
    if ls.len() == 0 {
        Seq::empty()
    } else if ls.last().len() > 0 {
        nonempty(ls.drop_last()).push(ls.last())
    } else {
        nonempty(ls.drop_last())
    }
}

/// The mark of a destination line.
pub open spec fn dest_mark() -> Seq<char> {
    seq!['>', ' ']
}

pub open spec fn is_dest_line(l: Seq<char>) -> bool {
    l.len() >= 2 && l[0] == '>' && l[1] == ' '
}

/// The destinations named by "> " lines, without the mark.
pub open spec fn dest_names(ls: Seq<Seq<char>>) -> Seq<Seq<char>>
    decreases ls.len(),
{
    if ls.len() == 0 {
        Seq::empty()
    } else if is_dest_line(ls.last()) {
        dest_names(ls.drop_last()).push(ls.last().skip(2))
    } else {
        dest_names(ls.drop_last())
    }
}

/// The lines that do not start with "> ".
pub open spec fn other_lines(ls: Seq<Seq<char>>) -> Seq<Seq<char>>
    decreases ls.len(),
{
    if ls.len() == 0 {
        Seq::empty()
    } else if is_dest_line(ls.last()) {
        other_lines(ls.drop_last())
    } else {
        other_lines(ls.drop_last()).push(ls.last())
    }
}

/// The destinations that the settings text `t` names.
pub open spec fn config_dests(t: Seq<char>) -> Seq<Seq<char>> {
    let ls = nonempty(text_lines(t));
    let ds = dest_names(ls);
    if ds.len() == 0 && ls.len() > 0 {
        seq![ls[0]]
    } else {
        ds
    }
}

/// The source folders that the settings text `t` names.
pub open spec fn config_sources(t: Seq<char>) -> Seq<Seq<char>> {
    let ls = nonempty(text_lines(t));
    let ds = dest_names(ls);
    if ds.len() == 0 && ls.len() > 0 {
        other_lines(ls.drop_first())
    } else {
        other_lines(ls)
    }
}

/// Lines joined with `\n` between them.
pub open spec fn join_lines(ls: Seq<Seq<char>>) -> Seq<char>
    decreases ls.len(),
{
    if ls.len() == 0 {
        Seq::empty()
    } else if ls.len() == 1 {
        ls[0]
    } else {
        join_lines(ls.drop_last()).push('\n') + ls.last()
    }
}

/// The lines saved for `dests` and `sources`: each destination after "> ",
/// then each source.
pub open spec fn config_lines(dests: Seq<Seq<char>>, sources: Seq<Seq<char>>) -> Seq<Seq<char>> {
    dests.map_values(|d: Seq<char>| dest_mark() + d) + sources
}

/// The settings text saved for `dests` and `sources`.
pub open spec fn config_text_of(dests: Seq<Seq<char>>, sources: Seq<Seq<char>>) -> Seq<char> {
    join_lines(config_lines(dests, sources))
}

/// The lines of `t`, as `text_lines` gives them.
fn lines_of(t: &Vec<char>) -> (r: Vec<Vec<char>>)
    ensures
        parts(r@) == text_lines(t@),
{
    let mut done: Vec<Vec<char>> = Vec::new();
    let mut cur: Vec<char> = Vec::new();
    for i in 0..t.len()
        invariant
            (parts(done@), cur@) == scan_lines(t@.take(i as int)),
    {
        let ghost before = parts(done@);
        let ghost old_cur = cur@;
        assert(t@.take(i + 1).drop_last() =~= t@.take(i as int));
        assert(t@.take(i + 1).last() == t@[i as int]);
        if t[i] == '\n' {
            if cur.len() > 0 && cur[cur.len() - 1] == '\r' {
                cur.pop();
            }
            assert(cur@ =~= strip_cr(old_cur));
            let line = cur;
            done.push(line);
            cur = Vec::new();
            assert(parts(done@) =~= before.push(strip_cr(old_cur)));
            assert(cur@ =~= Seq::<char>::empty());
        } else {
            cur.push(t[i]);
        }
    }
    assert(t@.take(t.len() as int) =~= t@);
    if cur.len() > 0 {
        let ghost before = parts(done@);
        let ghost last = cur@;
        done.push(cur);
        assert(parts(done@) =~= before.push(last));
    }
    done
}

fn keep_nonempty(ls: &Vec<Vec<char>>) -> (r: Vec<Vec<char>>)
    ensures
        parts(r@) == nonempty(parts(ls@)),
{
    let mut r: Vec<Vec<char>> = Vec::new();
    for i in 0..ls.len()
        invariant
            parts(r@) == nonempty(parts(ls@).take(i as int)),
    {
        let ghost before = parts(r@);
        assert(parts(ls@).take(i + 1).drop_last() =~= parts(ls@).take(i as int));
        assert(parts(ls@).take(i + 1).last() == ls@[i as int]@);
        if ls[i].len() > 0 {
            r.push(copy_chars(&ls[i]));
            assert(parts(r@) =~= before.push(ls@[i as int]@));
        }
    }
    assert(parts(ls@).take(ls.len() as int) =~= parts(ls@));
    r
}

fn dest_line(l: &Vec<char>) -> (b: bool)
    ensures
        b == is_dest_line(l@),
{
    l.len() >= 2 && l[0] == '>' && l[1] == ' '
}

/// The strings of the lines of `ls` at and after `from` that start with
/// "> " (without the mark) or, when `marked` is false, that do not.
fn select_lines(ls: &Vec<Vec<char>>, from: usize, marked: bool) -> (r: Vec<String>)
    requires
        from <= ls.len(),
    ensures
        strings(r@) == if marked {
            dest_names(parts(ls@).skip(from as int))
        } else {
            other_lines(parts(ls@).skip(from as int))
        },
{
    let ghost src = parts(ls@).skip(from as int);
    let mut r: Vec<String> = Vec::new();
    let mut i: usize = from;
    assert(src.take(0) =~= Seq::<Seq<char>>::empty());
    while i < ls.len()
        invariant
            from <= i <= ls.len(),
            src == parts(ls@).skip(from as int),
            strings(r@) == if marked {
                dest_names(src.take(i - from))
            } else {
                other_lines(src.take(i - from))
            },
        decreases ls.len() - i,
    {
        let ghost before = strings(r@);
        let k: usize = i - from;
        assert(src.take(k + 1).drop_last() =~= src.take(k as int));
        assert(src.take(k + 1).last() == ls@[i as int]@);
        let is_mark = dest_line(&ls[i]);
        if marked && is_mark {
            let mut name: Vec<char> = Vec::new();
            let mut j: usize = 2;
            while j < ls[i].len()
                invariant
                    i < ls.len(),
                    2 <= j <= ls@[i as int].len(),
                    name@ == ls@[i as int]@.subrange(2, j as int),
                decreases ls@[i as int].len() - j,
            {
                name.push(ls[i][j]);
                j = j + 1;
                assert(name@ =~= ls@[i as int]@.subrange(2, j as int));
            }
            assert(name@ =~= ls@[i as int]@.skip(2));
            r.push(string_of(&name));
            assert(strings(r@) =~= before.push(ls@[i as int]@.skip(2)));
        } else if !marked && !is_mark {
            r.push(string_of(&ls[i]));
            assert(strings(r@) =~= before.push(ls@[i as int]@));
        }
        i = i + 1;
    }
    assert(src.take(ls.len() - from) =~= src);
    r
}

/// Reads the settings text: the destinations and the source folders it names.
/// Empty lines are ignored. Lines that start with "> " are destinations and
/// the other lines sources; with no "> " line at all (the older format), the
/// first line is the single destination.
pub fn parse_config(text: &str) -> (r: (Vec<String>, Vec<String>))
    ensures
        strings(r.0@) == config_dests(text@),
        strings(r.1@) == config_sources(text@),
        nonempty(text_lines(text@)).len() > 0 && (forall|k: int|
            0 <= k < nonempty(text_lines(text@)).len() ==> !is_dest_line(
                #[trigger] nonempty(text_lines(text@))[k],
            )) ==> strings(r.0@) == seq![nonempty(text_lines(text@))[0]] && strings(r.1@)
            == nonempty(text_lines(text@)).drop_first(),
{
    proof {
        let ls = nonempty(text_lines(text@));
        if ls.len() > 0 && (forall|k: int| 0 <= k < ls.len() ==> !is_dest_line(#[trigger] ls[k])) {
            lemma_old_format(text@);
        }
    }
    let t = chars_of(text);
    let all = lines_of(&t);
    let ls = keep_nonempty(&all);
    assert(parts(ls@).skip(0) =~= parts(ls@));
    let dests = select_lines(&ls, 0, true);
    if dests.len() == 0 && ls.len() > 0 {
        let mut first: Vec<String> = Vec::new();
        first.push(string_of(&ls[0]));
        assert(strings(first@) =~= seq![parts(ls@)[0]]);
        let sources = select_lines(&ls, 1, false);
        assert(parts(ls@).skip(1) =~= parts(ls@).drop_first());
        (first, sources)
    } else {
        let sources = select_lines(&ls, 0, false);
        (dests, sources)
    }
}

/// The lines saved for `dests` and `sources`.
fn lines_for(dests: &Vec<String>, sources: &Vec<String>) -> (r: Vec<Vec<char>>)
    ensures
        parts(r@) == config_lines(strings(dests@), strings(sources@)),
{
    let mut r: Vec<Vec<char>> = Vec::new();
    for i in 0..dests.len()
        invariant
            r.len() == i,
            forall|k: int| 0 <= k < i ==> #[trigger] r@[k]@ == dest_mark() + dests@[k]@,
    {
        let mut line: Vec<char> = Vec::new();
        line.push('>');
        line.push(' ');
        let mut name = chars_of(dests[i].as_str());
        line.append(&mut name);
        assert(line@ =~= dest_mark() + dests@[i as int]@);
        r.push(line);
    }
    let nd: usize = dests.len();
    for j in 0..sources.len()
        invariant
            nd == dests.len(),
            r.len() == nd + j,
            forall|k: int| 0 <= k < nd ==> #[trigger] r@[k]@ == dest_mark() + dests@[k]@,
            forall|k: int| 0 <= k < j ==> #[trigger] r@[nd + k]@ == sources@[k]@,
    {
        let line = chars_of(sources[j].as_str());
        r.push(line);
        assert(r@[nd + j as int]@ == sources@[j as int]@);
    }
    let ghost want = config_lines(strings(dests@), strings(sources@));
    assert forall|k: int| 0 <= k < r.len() implies #[trigger] parts(r@)[k] == want[k] by {
        if k < nd {
            assert(r@[k]@ == dest_mark() + dests@[k]@);
        } else {
            assert(r@[nd + (k - nd)]@ == sources@[k - nd]@);
        }
    }
    assert(parts(r@) =~= want);
    r
}

/// The settings text for `dests` and `sources`: one "> " line per
/// destination, then one line per source, joined with `\n`.
pub fn config_text(dests: &Vec<String>, sources: &Vec<String>) -> (r: String)
    ensures
        r@ == config_text_of(strings(dests@), strings(sources@)),
{
    let ls = lines_for(dests, sources);
    let mut out = String::new();
    for i in 0..ls.len()
        invariant
            out@ == join_lines(parts(ls@).take(i as int)),
    {
        let ghost before = out@;
        assert(parts(ls@).take(i + 1).drop_last() =~= parts(ls@).take(i as int));
        assert(parts(ls@).take(i + 1).last() == ls@[i as int]@);
        if i > 0 {
            push_char(&mut out, '\n');
        }
        push_chars(&mut out, &ls[i]);
        if i == 0 {
            assert(parts(ls@).take(1) =~= seq![ls@[0]@]);
            assert(out@ =~= join_lines(parts(ls@).take(1)));
        }
    }
    assert(parts(ls@).take(ls.len() as int) =~= parts(ls@));
    out
}

/// A line that holds neither `\n` nor `\r`.
pub open spec fn single_line(l: Seq<char>) -> bool {
    forall|j: int| 0 <= j < l.len() ==> l[j] != '\n' && l[j] != '\r'
}

proof fn lemma_scan_plain(a: Seq<char>, b: Seq<char>)
    requires
        forall|j: int| 0 <= j < b.len() ==> b[j] != '\n',
    ensures
        scan_lines(a + b) == (scan_lines(a).0, scan_lines(a).1 + b),
    decreases b.len(),
{
    if b.len() == 0 {
        assert(a + b =~= a);
        assert(scan_lines(a).1 + b =~= scan_lines(a).1);
    } else {
        let b0 = b.drop_last();
        lemma_scan_plain(a, b0);
        assert((a + b).drop_last() =~= a + b0);
        assert((a + b).last() == b.last());
        assert(scan_lines(a).1 + b0 + seq![b.last()] =~= scan_lines(a).1 + b);
        assert((scan_lines(a).1 + b0).push(b.last()) =~= scan_lines(a).1 + b);
    }
}

proof fn lemma_scan_join(ls: Seq<Seq<char>>)
    requires
        ls.len() > 0,
        forall|i: int| 0 <= i < ls.len() ==> single_line(#[trigger] ls[i]),
    ensures
        scan_lines(join_lines(ls)) == (ls.drop_last(), ls.last()),
    decreases ls.len(),
{
    if ls.len() == 1 {
        lemma_scan_plain(Seq::empty(), ls[0]);
        assert(Seq::<char>::empty() + ls[0] =~= ls[0]);
        assert(ls.drop_last() =~= Seq::<Seq<char>>::empty());
        assert(Seq::<char>::empty() + ls[0] =~= ls.last());
    } else {
        let prev = ls.drop_last();
        assert forall|i: int| 0 <= i < prev.len() implies single_line(#[trigger] prev[i]) by {
            assert(prev[i] == ls[i]);
        }
        lemma_scan_join(prev);
        let a = join_lines(prev).push('\n');
        assert(single_line(ls.last()));
        lemma_scan_plain(a, ls.last());
        assert(a.drop_last() =~= join_lines(prev));
        let pl = prev.last();
        assert(single_line(prev[prev.len() - 1]));
        assert(strip_cr(pl) == pl) by {
            if pl.len() > 0 {
                assert(pl[pl.len() - 1] != '\r');
            }
        }
        assert(prev.drop_last().push(pl) =~= prev);
        assert(Seq::<char>::empty() + ls.last() =~= ls.last());
    }
}

proof fn lemma_text_lines_join(ls: Seq<Seq<char>>)
    requires
        forall|i: int| 0 <= i < ls.len() ==> single_line(#[trigger] ls[i]) && ls[i].len() > 0,
    ensures
        text_lines(join_lines(ls)) == ls,
{
    if ls.len() > 0 {
        assert(single_line(ls[0]) && ls[0].len() > 0);
        lemma_scan_join(ls);
        assert(ls.last().len() > 0) by {
            assert(ls[ls.len() - 1].len() > 0);
        }
        assert(ls.drop_last().push(ls.last()) =~= ls);
    } else {
        assert(join_lines(ls) =~= Seq::<char>::empty());
    }
}

proof fn lemma_nonempty_keeps(ls: Seq<Seq<char>>)
    requires
        forall|i: int| 0 <= i < ls.len() ==> (#[trigger] ls[i]).len() > 0,
    ensures
        nonempty(ls) == ls,
    decreases ls.len(),
{
    if ls.len() > 0 {
        let prev = ls.drop_last();
        assert forall|i: int| 0 <= i < prev.len() implies (#[trigger] prev[i]).len() > 0 by {
            assert(prev[i] == ls[i]);
        }
        lemma_nonempty_keeps(prev);
        assert(ls[ls.len() - 1].len() > 0);
        assert(prev.push(ls.last()) =~= ls);
    }
}

proof fn lemma_marked_lines(ds: Seq<Seq<char>>)
    ensures
        dest_names(ds.map_values(|d: Seq<char>| dest_mark() + d)) == ds,
        other_lines(ds.map_values(|d: Seq<char>| dest_mark() + d)) == Seq::<Seq<char>>::empty(),
    decreases ds.len(),
{
    let m = ds.map_values(|d: Seq<char>| dest_mark() + d);
    if ds.len() > 0 {
        let prev = ds.drop_last();
        lemma_marked_lines(prev);
        assert(m.drop_last() =~= prev.map_values(|d: Seq<char>| dest_mark() + d));
        assert(m.last() == dest_mark() + ds.last());
        assert((dest_mark() + ds.last()).skip(2) =~= ds.last());
        assert(prev.push(ds.last()) =~= ds);
    } else {
        assert(m =~= Seq::<Seq<char>>::empty());
    }
}

proof fn lemma_unmarked_lines(head: Seq<Seq<char>>, ss: Seq<Seq<char>>)
    requires
        forall|i: int| 0 <= i < ss.len() ==> !is_dest_line(#[trigger] ss[i]),
    ensures
        dest_names(head + ss) == dest_names(head),
        other_lines(head + ss) == other_lines(head) + ss,
    decreases ss.len(),
{
    if ss.len() == 0 {
        assert(head + ss =~= head);
        assert(other_lines(head) + ss =~= other_lines(head));
    } else {
        let prev = ss.drop_last();
        assert forall|i: int| 0 <= i < prev.len() implies !is_dest_line(#[trigger] prev[i]) by {
            assert(prev[i] == ss[i]);
        }
        lemma_unmarked_lines(head, prev);
        assert((head + ss).drop_last() =~= head + prev);
        assert((head + ss).last() == ss[ss.len() - 1]);
        assert((other_lines(head) + prev).push(ss.last()) =~= other_lines(head) + ss);
    }
}

/// Saving and reading back give the same lists: the text written for
/// `dests` and `sources` names exactly those destinations and sources, in
/// order, provided no name holds a line break, every source is a non-empty
/// name that does not itself start with "> ", and there is a destination
/// whenever there is a source.
pub proof fn lemma_config_round_trip(dests: Seq<Seq<char>>, sources: Seq<Seq<char>>)
    requires
        forall|i: int| 0 <= i < dests.len() ==> single_line(#[trigger] dests[i]),
        forall|i: int|
            0 <= i < sources.len() ==> single_line(#[trigger] sources[i]) && sources[i].len() > 0
                && !is_dest_line(sources[i]),
        dests.len() > 0 || sources.len() == 0,
    ensures
        config_dests(config_text_of(dests, sources)) == dests,
        config_sources(config_text_of(dests, sources)) == sources,
{
    let m = dests.map_values(|d: Seq<char>| dest_mark() + d);
    let ls = config_lines(dests, sources);
    assert forall|i: int| 0 <= i < ls.len() implies single_line(#[trigger] ls[i]) && ls[i].len()
        > 0 by {
        if i < dests.len() {
            assert(ls[i] == dest_mark() + dests[i]);
            assert(single_line(dests[i]));
            assert forall|j: int| 0 <= j < ls[i].len() implies ls[i][j] != '\n' && ls[i][j]
                != '\r' by {
                if j >= 2 {
                    assert(ls[i][j] == dests[i][j - 2]);
                }
            }
        } else {
            assert(ls[i] == sources[i - dests.len()]);
        }
    }
    lemma_text_lines_join(ls);
    lemma_nonempty_keeps(ls);
    lemma_marked_lines(dests);
    lemma_unmarked_lines(m, sources);
    assert(Seq::<Seq<char>>::empty() + sources =~= sources);
}

proof fn lemma_unmarked_all(ls: Seq<Seq<char>>)
    requires
        forall|k: int| 0 <= k < ls.len() ==> !is_dest_line(#[trigger] ls[k]),
    ensures
        dest_names(ls) == Seq::<Seq<char>>::empty(),
        other_lines(ls) == ls,
    decreases ls.len(),
{
    if ls.len() > 0 {
        let prev = ls.drop_last();
        assert forall|k: int| 0 <= k < prev.len() implies !is_dest_line(#[trigger] prev[k]) by {
            assert(prev[k] == ls[k]);
        }
        lemma_unmarked_all(prev);
        assert(!is_dest_line(ls[ls.len() - 1]));
        assert(prev.push(ls.last()) =~= ls);
    }
}

/// Settings in the older format, with no line that starts with "> ", name
/// their first non-empty line as the single destination and the other
/// non-empty lines, in order, as the sources.
pub proof fn lemma_old_format(t: Seq<char>)
    requires
        nonempty(text_lines(t)).len() > 0,
        forall|k: int|
            0 <= k < nonempty(text_lines(t)).len() ==> !(#[trigger] nonempty(text_lines(t))[k].len()
                >= 2 && nonempty(text_lines(t))[k][0] == '>' && nonempty(text_lines(t))[k][1] == ' '),
    ensures
        config_dests(t) == seq![nonempty(text_lines(t))[0]],
        config_sources(t) == nonempty(text_lines(t)).drop_first(),
{
    let ls = nonempty(text_lines(t));
    assert forall|k: int| 0 <= k < ls.len() implies !is_dest_line(#[trigger] ls[k]) by {}
    lemma_unmarked_all(ls);
    let rest = ls.drop_first();
    assert forall|k: int| 0 <= k < rest.len() implies !is_dest_line(#[trigger] rest[k]) by {
        assert(rest[k] == ls[k + 1]);
    }
    lemma_unmarked_all(rest);
}

} // verus!
