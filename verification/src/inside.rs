//! The mirrored folder stays inside the destination: for any source whose
//! pieces push as plain appends and hold no `..`, the destination keeps its
//! prefix and what it holds, and everything added after it is names.
use vstd::prelude::*;
use crate::winpath::{
    Item, PrefixKind, after_root, body, drive_at, head_part, is_sep, is_verbatim, item_of,
    item_text, items_of, is_normal, is_sep_in, normal_parts, piece_items, apply_items,
    lemma_sep_index_bound, lemma_under_extends, mirror_parts, mirrored,
    needs_sep, parse_prefix, prefix_len, push, push_all, render, sep_index, split_on, tail_part,
    under, verbatim_items,
};
use crate::verbatim::{
    lemma_before_sep, lemma_head_is, lemma_prefix_kept,
    lemma_prefix_len_bound, lemma_render_push, lemma_render_root_only,
    lemma_render_starts_with_sep, lemma_sep_index_append, lemma_split_append,
    lemma_split_push_sep, named_items, verbatim_stable,
};

verus! {

/// A piece that pushing appends to the path: it starts with neither a
/// separator nor a drive.
pub open spec fn appendable(x: Seq<char>) -> bool {
    !drive_at(x) && (x.len() == 0 || !is_sep(x[0]))
}

/// No separator-delimited part of `s` is `..`.
pub open spec fn no_parent_part(s: Seq<char>) -> bool {
    forall|k: int|
        0 <= k < split_on(s, false).len() ==> #[trigger] split_on(s, false)[k] != seq!['.', '.']
}

/// A destination whose prefix no push of appendable pieces can change: not a
/// verbatim path, not two separators without a complete prefix (`\\`,
/// `\\server`, which a push would turn into a network prefix), and not a
/// device prefix with no name (`\\.\`).
pub open spec fn settled(dest: Seq<char>) -> bool {
    !is_verbatim(dest) && match parse_prefix(dest) {
        None => !(dest.len() >= 2 && is_sep(dest[0]) && is_sep(dest[1])),
        Some(x) => !(x.kind == PrefixKind::DeviceNs && x.first.len() == 0),
    }
}

/// Text after a separator starts a new part: the parts of `a + b`, when `a`
/// ends with a separator, are those of `a` but its last (empty) one, then
/// those of `b`.
proof fn lemma_split_after_sep(a: Seq<char>, b: Seq<char>)
    requires
        a.len() > 0,
        is_sep(a.last()),
    ensures
        split_on(a + b, false) == split_on(a, false).drop_last() + split_on(b, false),
    decreases a.len(),
{
    lemma_sep_index_bound(a, false);
    lemma_before_sep(a, false);
    let i = sep_index(a, false) as int;
    if i >= a.len() {
        assert(!is_sep(a[a.len() - 1]));
    }
    lemma_sep_index_append(a, b, false);
    let rest = a.skip(i + 1);
    assert((a + b).take(i) =~= a.take(i));
    assert((a + b).skip(i + 1) =~= rest + b);
    let head = seq![a.take(i)];
    assert(split_on(a, false) == head + split_on(rest, false));
    assert(split_on(a + b, false) == head + split_on(rest + b, false));
    if rest.len() == 0 {
        assert(rest + b =~= b);
        assert(sep_index(rest, false) == 0);
        assert(split_on(rest, false) == seq![rest]);
        assert((head + seq![rest]).drop_last() =~= head);
    } else {
        assert(rest.last() == a.last());
        lemma_split_after_sep(rest, b);
        assert(split_on(rest, false).len() > 0) by {
            lemma_sep_index_bound(rest, false);
        }
        assert((head + split_on(rest, false)).drop_last() =~= head + split_on(rest, false).drop_last());
    }
    assert(split_on(a + b, false) =~= split_on(a, false).drop_last() + split_on(b, false));
}

/// Appending `x` after a separator (or after a separator added for it) keeps
/// every part free of `..` when both sides are.
proof fn lemma_no_parent_join(a: Seq<char>, sep: bool, x: Seq<char>)
    requires
        no_parent_part(a),
        no_parent_part(x),
        sep || a.len() == 0 || is_sep(a.last()),
    ensures
        no_parent_part(if sep { a.push('\\') + x } else { a + x }),
{
    if sep {
        lemma_split_push_sep(a, false);
        let ap = a.push('\\');
        assert(ap.last() == '\\');
        lemma_split_after_sep(ap, x);
        assert(split_on(ap, false).drop_last() =~= split_on(a, false));
        let s = split_on(ap + x, false);
        assert forall|k: int| 0 <= k < s.len() implies #[trigger] s[k] != seq!['.', '.'] by {
            if k < split_on(a, false).len() {
                assert(s[k] == split_on(a, false)[k]);
            } else {
                assert(s[k] == split_on(x, false)[k - split_on(a, false).len()]);
            }
        }
    } else if a.len() == 0 {
        assert(a + x =~= x);
    } else {
        lemma_split_after_sep(a, x);
        let s = split_on(a + x, false);
        let sa = split_on(a, false).drop_last();
        assert forall|k: int| 0 <= k < s.len() implies #[trigger] s[k] != seq!['.', '.'] by {
            if k < sa.len() {
                assert(s[k] == split_on(a, false)[k]);
            } else {
                assert(s[k] == split_on(x, false)[k - sa.len()]);
            }
        }
    }
}

/// The part before the first separator is kept by what is appended, when
/// the text already holds a separator or the appended text starts with one;
/// in the first case what follows the separator grows by the appended text.
proof fn lemma_head_append(s: Seq<char>, t: Seq<char>)
    requires
        sep_index(s, false) < s.len() || (t.len() > 0 && is_sep(t[0])),
    ensures
        head_part(s + t, false) == head_part(s, false),
        sep_index(s, false) < s.len() ==> tail_part(s + t, false) == tail_part(s, false) + t,
{
    lemma_sep_index_bound(s, false);
    if sep_index(s, false) < s.len() {
        lemma_sep_index_append(s, t, false);
        let i = sep_index(s, false) as int;
        assert((s + t).take(i) =~= s.take(i));
        assert((s + t).skip(i + 1) =~= s.skip(i + 1) + t);
    } else {
        lemma_before_sep(s, false);
        assert((s + t).take(s.len() as int) =~= s);
        assert((s + t)[s.len() as int] == t[0]);
        lemma_head_is(s + t, s, false);
        assert(s.take(s.len() as int) =~= s);
    }
}

/// A name ending a path, with no separator in it, is its last character's
/// owner: the path does not end with a separator.
proof fn lemma_last_name(out: Seq<char>, k: int)
    requires
        0 <= k <= out.len(),
        sep_index(out.skip(k), false) >= out.skip(k).len(),
        out.skip(k).len() > 0,
    ensures
        !is_sep(out.last()),
{
    let s = out.skip(k);
    lemma_before_sep(s, false);
    assert(s[s.len() - 1] == out[out.len() - 1]);
}

/// Pushing an appendable piece onto a settled path appends it (after a `\`
/// where one is needed) and keeps the prefix, so the path stays settled.
proof fn lemma_settled_step(out: Seq<char>, x: Seq<char>)
    requires
        settled(out),
        appendable(x),
    ensures
        push(out, x) == (if needs_sep(out) {
            out.push('\\') + x
        } else {
            out + x
        }),
        parse_prefix(push(out, x)) == parse_prefix(out),
        settled(push(out, x)),
{
    assert(parse_prefix(x) is None);
    let t = if needs_sep(out) {
        seq!['\\'] + x
    } else {
        x
    };
    let r = out + t;
    assert(push(out, x) =~= r);
    assert forall|i: int| 0 <= i < out.len() implies #[trigger] r[i] == out[i] by {}
    match parse_prefix(out) {
        None => {
            if out.len() >= 2 {
                assert(r[0] == out[0] && r[1] == out[1]);
                assert(!drive_at(r));
            } else if out.len() == 1 {
                if needs_sep(out) {
                    assert(r[1] == '\\');
                } else if x.len() > 0 {
                    assert(r[1] == x[0]);
                } else {
                    assert(r =~= out);
                }
            } else {
                assert(!needs_sep(out));
                assert(r =~= x);
            }
            assert(parse_prefix(r) is None);
        },
        Some(pp) => {
            if pp.kind == PrefixKind::Disk {
                assert(r[0] == out[0] && r[1] == out[1]);
                assert(parse_prefix(r) == parse_prefix(out));
            } else if pp.kind == PrefixKind::DeviceNs {
                let s = out.skip(4);
                assert(r.skip(4) =~= s + t);
                if sep_index(s, false) >= s.len() {
                    lemma_sep_index_bound(s, false);
                    lemma_last_name(out, 4);
                    assert(needs_sep(out));
                }
                lemma_head_append(s, t);
                assert(parse_prefix(r) == parse_prefix(out));
            } else {
                assert(pp.kind == PrefixKind::Unc);
                let rest = out.skip(2);
                assert(r.skip(2) =~= rest + t);
                lemma_sep_index_bound(rest, false);
                assert(sep_index(rest, false) < rest.len());
                lemma_head_append(rest, t);
                let s2 = tail_part(rest, false);
                let k: int = sep_index(rest, false) as int + 3;
                assert(s2 =~= out.skip(k));
                if sep_index(s2, false) >= s2.len() {
                    lemma_sep_index_bound(s2, false);
                    lemma_last_name(out, k);
                    assert(needs_sep(out));
                }
                lemma_head_append(s2, t);
                assert(parse_prefix(r) == parse_prefix(out));
            }
        },
    }
}

proof fn lemma_under_settled(dest: Seq<char>, pieces: Seq<Seq<char>>)
    requires
        settled(dest),
        forall|i: int| 0 <= i < pieces.len() ==> appendable(#[trigger] pieces[i]),
    ensures
        push_all(dest, pieces) == under(dest, pieces),
        parse_prefix(under(dest, pieces)) == parse_prefix(dest),
        settled(under(dest, pieces)),
    decreases pieces.len(),
{
    if pieces.len() > 0 {
        let prev = pieces.drop_last();
        assert forall|i: int| 0 <= i < prev.len() implies appendable(#[trigger] prev[i]) by {
            assert(prev[i] == pieces[i]);
        }
        lemma_under_settled(dest, prev);
        assert(appendable(pieces[pieces.len() - 1]));
        lemma_settled_step(under(dest, prev), pieces.last());
    }
}

proof fn lemma_tail_names(dest: Seq<char>, pieces: Seq<Seq<char>>)
    requires
        forall|i: int|
            0 <= i < pieces.len() ==> appendable(#[trigger] pieces[i]) && no_parent_part(pieces[i]),
    ensures
        no_parent_part(under(dest, pieces).skip(dest.len() as int)),
        under(dest, pieces).len() > dest.len() ==> !(under(dest, pieces).len() == 2 && drive_at(
            under(dest, pieces),
        )),
    decreases pieces.len(),
{
    lemma_under_extends(dest, pieces);
    let d = dest.len() as int;
    let r = under(dest, pieces);
    if pieces.len() == 0 {
        assert(r.skip(d) =~= Seq::<char>::empty());
        assert(sep_index(Seq::<char>::empty(), false) == 0);
        assert(split_on(Seq::<char>::empty(), false) == seq![Seq::<char>::empty()]);
        assert(seq!['.', '.'].len() == 2);
    } else {
        let prev = pieces.drop_last();
        assert forall|i: int| 0 <= i < prev.len() implies appendable(#[trigger] prev[i])
            && no_parent_part(prev[i]) by {
            assert(prev[i] == pieces[i]);
        }
        lemma_tail_names(dest, prev);
        lemma_under_extends(dest, prev);
        let out = under(dest, prev);
        let x = pieces.last();
        assert(appendable(pieces[pieces.len() - 1]) && no_parent_part(pieces[pieces.len() - 1]));
        let tail = out.skip(d);
        if needs_sep(out) {
            assert(r.skip(d) =~= tail.push('\\') + x);
            lemma_no_parent_join(tail, true, x);
            if r.len() == 2 {
                assert(r[out.len() as int] == '\\');
            }
        } else {
            assert(r.skip(d) =~= tail + x);
            if tail.len() > 0 {
                assert(tail.last() == out.last());
            }
            lemma_no_parent_join(tail, false, x);
            if r.len() == 2 && drive_at(r) && r.len() > d {
                if out.len() == 0 {
                    assert(r =~= x);
                } else if out.len() == 2 && drive_at(out) {
                    assert(r =~= out);
                } else {
                    assert(r[out.len() - 1] == out.last());
                }
            }
        }
    }
}

/// The mirrored folder stays inside the destination: it starts with the
/// destination, keeps its prefix, and every part written after it is a name
/// (no `..` climbs out). `C:\a\..\..\x` under `F:\b` is `F:\b\c\a\x`.
/// This holds for a settled destination (see `settled`; verbatim destinations
/// are the subject of `lemma_mirror_under_verbatim_dest`) when every piece of
/// the source starts with neither a separator nor a drive and holds no `..`
/// part. It fails on the others: a network source whose server is `..` pushes
/// `..`, a verbatim source `\\?\C:\a/..` pushes the piece `a/..`, and a
/// piece `D:x` or `/x` replaces the destination or all of it but its prefix.
pub proof fn lemma_mirror_inside(dest: Seq<char>, src: Seq<char>)
    requires
        settled(dest),
        forall|i: int|
            0 <= i < mirror_parts(src).len() ==> appendable(#[trigger] mirror_parts(src)[i])
                && no_parent_part(mirror_parts(src)[i]),
    ensures
        mirrored(dest, src) == under(dest, mirror_parts(src)),
        mirrored(dest, src).take(dest.len() as int) == dest,
        parse_prefix(mirrored(dest, src)) == parse_prefix(dest),
        no_parent_part(mirrored(dest, src).skip(dest.len() as int)),
{
    let pieces = mirror_parts(src);
    assert forall|i: int| 0 <= i < pieces.len() implies appendable(#[trigger] pieces[i]) by {}
    lemma_under_settled(dest, pieces);
    lemma_under_extends(dest, pieces);
    lemma_tail_names(dest, pieces);
}

/// A name a verbatim path can hold as one component: not empty, `.` or `..`,
/// and with no `\\` in it.
pub open spec fn name_ok(t: Seq<char>) -> bool {
    t.len() > 0 && t != seq!['.'] && t != seq!['.', '.'] && forall|j: int|
        0 <= j < t.len() ==> t[j] != '\\'
}

/// Components as a verbatim path holds them once read: a root only first,
/// and names that are not empty, `.` or `..` and hold no `\\`.
pub open spec fn wf_items(its: Seq<Item>) -> bool {
    forall|k: int|
        0 <= k < its.len() ==> match #[trigger] its[k] {
            Item::Root => k == 0,
            Item::Named(t) => name_ok(t),
            _ => true,
        }
}

/// Components written after a verbatim prefix read back: the text starts
/// with a `\\`, so it reads as rooted.
pub open spec fn reparsed(its: Seq<Item>) -> Seq<Item> {
    if its.len() > 0 && !(its[0] is Root) {
        seq![Item::Root] + its
    } else {
        its
    }
}

/// A component other than a root reads back as itself from its text, which
/// holds no `\\`.
proof fn lemma_item_reads_back(y: Item)
    requires
        wf_items(seq![y]),
        !(y is Root),
    ensures
        item_of(item_text(y), true) == Some(y),
        forall|j: int| 0 <= j < item_text(y).len() ==> #[trigger] item_text(y)[j] != '\\',
        item_text(y).len() > 0,
{
    assert(seq![y][0] == y);
    match y {
        Item::Cur => {
            assert(item_text(y) == seq!['.']);
        },
        Item::Parent => {
            assert(item_text(y) == seq!['.', '.']);
            assert(seq!['.', '.'] != seq!['.']) by {
                assert(seq!['.', '.'].len() != seq!['.'].len());
            }
        },
        _ => {},
    }
}

/// After a separator, a text with no `\\` is one last part.
proof fn lemma_split_sep_text(b: Seq<char>, t: Seq<char>)
    requires
        forall|j: int| 0 <= j < t.len() ==> #[trigger] t[j] != '\\',
    ensures
        split_on(b.push('\\') + t, true) == split_on(b, true).push(t),
{
    lemma_split_push_sep(b, true);
    assert forall|j: int| 0 <= j < t.len() implies !crate::winpath::is_sep_in(#[trigger] t[j], true) by {}
    lemma_split_append(b.push('\\'), t, true);
    let sp = split_on(b, true);
    assert(sp.push(Seq::<char>::empty()).drop_last() =~= sp);
    assert(Seq::<char>::empty() + t =~= t);
}

/// Components rendered after a stable verbatim prefix read back as
/// themselves, rooted, under the same prefix.
proof fn lemma_rebuild_reads_back(p: Seq<char>, its: Seq<Item>)
    requires
        is_verbatim(p),
        verbatim_stable(p),
        wf_items(its),
        its.len() > 0,
    ensures
        parse_prefix(p.take(prefix_len(p) as int) + render(its, true)) == parse_prefix(p),
        verbatim_items(p.take(prefix_len(p) as int) + render(its, true)) == reparsed(its),
    decreases its.len(),
{
    lemma_prefix_len_bound(p);
    let l = prefix_len(p) as int;
    let b = render(its, true);
    let q = p.take(l) + b;
    lemma_render_starts_with_sep(its);
    assert(q.take(l) =~= p.take(l));
    assert(q[l] == b[0]);
    lemma_prefix_kept(p, q);
    assert(body(q) =~= b);
    assert(after_root(b) == b);
    let y = its.last();
    let prev = its.drop_last();
    assert(its =~= prev.push(y));
    if prev.len() == 0 || prev == seq![Item::Root] {
        if prev.len() == 0 {
            assert(its[0] == y);
        } else {
            assert(its[1] == y);
            assert(!(y is Root));
        }
        if y is Root {
            lemma_render_root_only();
            assert(its =~= seq![Item::Root]);
            assert(b =~= seq!['\\']);
            assert(b =~= Seq::<char>::empty().push('\\') + Seq::<char>::empty());
            lemma_split_sep_text(Seq::<char>::empty(), Seq::<char>::empty());
            assert(sep_index(Seq::<char>::empty(), true) == 0);
            assert(split_on(Seq::<char>::empty(), true) == seq![Seq::<char>::empty()]);
            let sp = seq![Seq::<char>::empty()].push(Seq::<char>::empty());
            assert(sp.drop_last() =~= seq![Seq::<char>::empty()]);
            assert(seq![Seq::<char>::empty()].drop_last() =~= Seq::<Seq<char>>::empty());
            assert(items_of(Seq::<Seq<char>>::empty(), true) == Seq::<Item>::empty());
            assert(item_of(Seq::<char>::empty(), true) is None);
            assert(items_of(seq![Seq::<char>::empty()], true) =~= Seq::<Item>::empty());
            assert(sp.last() == Seq::<char>::empty());
            assert(items_of(sp, true) =~= Seq::<Item>::empty());
            assert(verbatim_items(q) =~= reparsed(its));
        } else {
            assert forall|k: int| 0 <= k < 1 implies match #[trigger] seq![y][k] {
                Item::Root => k == 0,
                Item::Named(t) => name_ok(t),
                _ => true,
            } by {
                assert(seq![y][k] == its[its.len() - 1]);
            }
            lemma_item_reads_back(y);
            let t = item_text(y);
            lemma_render_push(prev, y, true);
            if prev.len() == 0 {
                assert(render(prev, true) == Seq::<char>::empty());
            } else {
                lemma_render_root_only();
            }
            assert(b =~= Seq::<char>::empty().push('\\') + t);
            lemma_split_sep_text(Seq::<char>::empty(), t);
            assert(sep_index(Seq::<char>::empty(), true) == 0);
            assert(split_on(Seq::<char>::empty(), true) == seq![Seq::<char>::empty()]);
            let sp = seq![Seq::<char>::empty()].push(t);
            assert(sp.drop_last() =~= seq![Seq::<char>::empty()]);
            assert(seq![Seq::<char>::empty()].drop_last() =~= Seq::<Seq<char>>::empty());
            assert(items_of(Seq::<Seq<char>>::empty(), true) == Seq::<Item>::empty());
            assert(items_of(seq![Seq::<char>::empty()], true) =~= Seq::<Item>::empty());
            assert(items_of(sp, true) =~= seq![y]);
            assert(verbatim_items(q) =~= reparsed(its));
        }
    } else {
        assert forall|k: int| 0 <= k < prev.len() implies match #[trigger] prev[k] {
            Item::Root => k == 0,
            Item::Named(t) => name_ok(t),
            _ => true,
        } by {
            assert(prev[k] == its[k]);
        }
        lemma_rebuild_reads_back(p, prev);
        assert(!(prev.last() is Root)) by {
            if prev.last() is Root {
                assert(its[prev.len() - 1] == prev.last());
                assert(prev.len() == 1);
                assert(prev =~= seq![Item::Root]);
            }
        }
        assert(!(y is Root)) by {
            assert(its[its.len() - 1] == y);
        }
        assert forall|k: int| 0 <= k < 1 implies match #[trigger] seq![y][k] {
            Item::Root => k == 0,
            Item::Named(t) => name_ok(t),
            _ => true,
        } by {
            assert(seq![y][k] == its[its.len() - 1]);
        }
        lemma_item_reads_back(y);
        let t = item_text(y);
        let bp = render(prev, true);
        lemma_render_push(prev, y, true);
        assert(b =~= bp.push('\\') + t);
        let qp = p.take(l) + bp;
        lemma_render_starts_with_sep(prev);
        assert(body(qp) =~= bp);
        lemma_split_sep_text(bp, t);
        let sp = split_on(bp, true);
        assert(sp.push(t).drop_last() =~= sp);
        assert(items_of(sp.push(t), true) == items_of(sp, true).push(y));
        assert(b[0] == bp[0]);
        assert(after_root(bp) == bp);
        assert(verbatim_items(q) =~= verbatim_items(qp).push(y));
        assert(prev[0] == its[0]);
        assert(reparsed(its) =~= reparsed(prev).push(y));
    }
}

/// What follows a verbatim prefix, if anything, starts with a separator.
proof fn lemma_body_starts_sep(p: Seq<char>)
    requires
        is_verbatim(p),
    ensures
        body(p).len() > 0 ==> is_sep(body(p)[0]),
        body(p).len() > 0 ==> body(p)[0] == '\\' || parse_prefix(p).unwrap().kind
            == PrefixKind::VerbatimDisk,
        verbatim_items(p).len() == 0 <==> body(p).len() == 0,
        verbatim_items(p).len() > 0 ==> verbatim_items(p)[0] is Root,
{
    lemma_prefix_len_bound(p);
    let l = prefix_len(p) as int;
    let x = parse_prefix(p).unwrap();
    if body(p).len() > 0 {
        assert(body(p)[0] == p[l]);
        if x.kind == PrefixKind::VerbatimDisk {
            assert(p.skip(4)[2] == p[6]);
        } else if x.kind == PrefixKind::Verbatim {
            let rest = p.skip(4);
            lemma_sep_index_bound(rest, true);
            assert(rest[sep_index(rest, true) as int] == p[l]);
        } else {
            let rest = p.skip(8);
            lemma_sep_index_bound(rest, true);
            let i = sep_index(rest, true) as int;
            if i < rest.len() {
                let tail = rest.skip(i + 1);
                lemma_sep_index_bound(tail, true);
                if x.second.len() > 0 {
                    assert(tail[sep_index(tail, true) as int] == p[l]);
                } else {
                    assert(rest[i] == p[l]);
                }
            }
        }
    } else {
        assert(after_root(body(p)) =~= Seq::<char>::empty());
        assert(sep_index(Seq::<char>::empty(), true) == 0);
        assert(split_on(Seq::<char>::empty(), true) == seq![Seq::<char>::empty()]);
        assert(seq![Seq::<char>::empty()].drop_last() =~= Seq::<Seq<char>>::empty());
        assert(item_of(Seq::<char>::empty(), true) is None);
        assert(items_of(Seq::<Seq<char>>::empty(), true) == Seq::<Item>::empty());
        assert(seq![Seq::<char>::empty()].last() == Seq::<char>::empty());
        assert(items_of(seq![Seq::<char>::empty()], true) =~= Seq::<Item>::empty());
    }
}

proof fn lemma_split_parts_no_sep(s: Seq<char>, v: bool)
    ensures
        forall|k: int, j: int|
            0 <= k < split_on(s, v).len() && 0 <= j < split_on(s, v)[k].len() ==> !is_sep_in(
                #[trigger] split_on(s, v)[k][j],
                v,
            ),
    decreases s.len(),
{
    lemma_sep_index_bound(s, v);
    lemma_before_sep(s, v);
    let i = sep_index(s, v) as int;
    let sp = split_on(s, v);
    if i < s.len() {
        let rest = s.skip(i + 1);
        lemma_split_parts_no_sep(rest, v);
        assert(sp == seq![s.take(i)] + split_on(rest, v));
        assert forall|k: int, j: int| 0 <= k < sp.len() && 0 <= j < sp[k].len() implies !is_sep_in(
            #[trigger] sp[k][j],
            v,
        ) by {
            if k == 0 {
                assert(sp[0] == s.take(i));
                assert(sp[0][j] == s[j]);
            } else {
                assert(sp[k] == split_on(rest, v)[k - 1]);
            }
        }
    } else {
        assert(sp == seq![s]);
        assert forall|k: int, j: int| 0 <= k < sp.len() && 0 <= j < sp[k].len() implies !is_sep_in(
            #[trigger] sp[k][j],
            v,
        ) by {
            assert(sp[k] == s);
        }
    }
}

proof fn lemma_items_wf(ps: Seq<Seq<char>>)
    requires
        forall|k: int, j: int| 0 <= k < ps.len() && 0 <= j < ps[k].len() ==> #[trigger] ps[k][j] != '\\',
    ensures
        forall|k: int|
            0 <= k < items_of(ps, true).len() ==> match #[trigger] items_of(ps, true)[k] {
                Item::Root => false,
                Item::Named(t) => name_ok(t),
                _ => true,
            },
    decreases ps.len(),
{
    if ps.len() > 0 {
        let prev = ps.drop_last();
        assert forall|k: int, j: int| 0 <= k < prev.len() && 0 <= j < prev[k].len() implies #[trigger] prev[k][j] != '\\' by {
            assert(prev[k] == ps[k]);
        }
        lemma_items_wf(prev);
        let last = ps.last();
        assert forall|j: int| 0 <= j < last.len() implies last[j] != '\\' by {
            assert(ps[ps.len() - 1][j] == last[j]);
        }
        let pi = items_of(prev, true);
        let its = items_of(ps, true);
        match item_of(last, true) {
            Some(it) => {
                assert(its == pi.push(it));
                assert forall|k: int| 0 <= k < its.len() implies match #[trigger] its[k] {
                    Item::Root => false,
                    Item::Named(t) => name_ok(t),
                    _ => true,
                } by {
                    if k < pi.len() {
                        assert(its[k] == pi[k]);
                    }
                }
            },
            None => {},
        }
    }
}

/// The components read from a verbatim path are well formed.
proof fn lemma_verbatim_items_wf(p: Seq<char>)
    ensures
        wf_items(verbatim_items(p)),
{
    let b = body(p);
    let a = after_root(b);
    lemma_split_parts_no_sep(a, true);
    let sp = split_on(a, true);
    assert forall|k: int, j: int| 0 <= k < sp.len() && 0 <= j < sp[k].len() implies #[trigger] sp[k][j] != '\\' by {
        assert(!is_sep_in(sp[k][j], true));
    }
    lemma_items_wf(sp);
    let its = items_of(sp, true);
    let all = verbatim_items(p);
    let root: Seq<Item> = if b.len() > 0 && is_sep(b[0]) {
        seq![Item::Root]
    } else {
        Seq::empty()
    };
    assert(all == root + its);
    assert forall|k: int| 0 <= k < all.len() implies match #[trigger] all[k] {
        Item::Root => k == 0,
        Item::Named(t) => name_ok(t),
        _ => true,
    } by {
        if k >= root.len() {
            assert(all[k] == its[k - root.len()]);
        }
    }
}

/// The pieces, other than `..`, of a text pushed onto a verbatim path read
/// as a name each, `.` and empty ones dropped.
proof fn lemma_piece_names(ps: Seq<Seq<char>>)
    requires
        forall|k: int| 0 <= k < ps.len() ==> #[trigger] ps[k] != seq!['.', '.'],
    ensures
        items_of(ps, false) == named_items(normal_parts(ps)),
    decreases ps.len(),
{
    if ps.len() > 0 {
        let prev = ps.drop_last();
        assert forall|k: int| 0 <= k < prev.len() implies #[trigger] prev[k] != seq!['.', '.'] by {
            assert(prev[k] == ps[k]);
        }
        lemma_piece_names(prev);
        let last = ps.last();
        assert(ps[ps.len() - 1] == last);
        if is_normal(last) {
            assert(item_of(last, false) == Some(Item::Named(last)));
            assert(named_items(normal_parts(prev).push(last)) =~= named_items(normal_parts(prev)).push(
                Item::Named(last),
            ));
        } else {
            assert(item_of(last, false) is None);
        }
    }
}

proof fn lemma_apply_named(buf: Seq<Item>, ns: Seq<Seq<char>>)
    ensures
        apply_items(buf, named_items(ns)) == buf + named_items(ns),
    decreases ns.len(),
{
    if ns.len() > 0 {
        let prev = ns.drop_last();
        lemma_apply_named(buf, prev);
        let its = named_items(ns);
        assert(its.drop_last() =~= named_items(prev));
        assert(its.last() == Item::Named(ns.last()));
        assert(buf + its =~= (buf + named_items(prev)).push(Item::Named(ns.last())));
    } else {
        assert(named_items(ns) =~= Seq::<Item>::empty());
        assert(buf + named_items(ns) =~= buf);
    }
}

/// The names among the parts of a text without separators in its parts.
proof fn lemma_normal_parts_ok(ps: Seq<Seq<char>>)
    requires
        forall|k: int, j: int| 0 <= k < ps.len() && 0 <= j < ps[k].len() ==> !is_sep(#[trigger] ps[k][j]),
    ensures
        forall|k: int| 0 <= k < normal_parts(ps).len() ==> name_ok(#[trigger] normal_parts(ps)[k]),
    decreases ps.len(),
{
    if ps.len() > 0 {
        let prev = ps.drop_last();
        assert forall|k: int, j: int| 0 <= k < prev.len() && 0 <= j < prev[k].len() implies !is_sep(#[trigger] prev[k][j]) by {
            assert(prev[k] == ps[k]);
        }
        lemma_normal_parts_ok(prev);
        let last = ps.last();
        assert forall|j: int| 0 <= j < last.len() implies last[j] != '\\' by {
            assert(ps[ps.len() - 1][j] == last[j]);
        }
        let np = normal_parts(ps);
        let pp = normal_parts(prev);
        if is_normal(last) {
            assert forall|k: int| 0 <= k < np.len() implies name_ok(#[trigger] np[k]) by {
                if k < pp.len() {
                    assert(np[k] == pp[k]);
                } else {
                    assert(np[k] == last);
                }
            }
        }
    }
}

/// The names that pushing `x` adds: its separator-delimited parts that are
/// neither empty nor `.`.
pub open spec fn name_parts(x: Seq<char>) -> Seq<Seq<char>> {
    normal_parts(split_on(x, false))
}

proof fn lemma_names_wf(x: Seq<char>)
    ensures
        wf_items(named_items(name_parts(x))),
        forall|k: int| 0 <= k < name_parts(x).len() ==> name_ok(#[trigger] name_parts(x)[k]),
{
    lemma_split_parts_no_sep(x, false);
    lemma_normal_parts_ok(split_on(x, false));
    let its = named_items(name_parts(x));
    assert forall|k: int| 0 <= k < its.len() implies match #[trigger] its[k] {
        Item::Root => k == 0,
        Item::Named(t) => name_ok(t),
        _ => true,
    } by {
        assert(its[k] == Item::Named(name_parts(x)[k]));
    }
}

/// The components of a verbatim path after names are pushed onto it: those
/// of the path, then one named component per name, read back rooted.
pub open spec fn grown(its: Seq<Item>, ns: Seq<Seq<char>>) -> Seq<Item> {
    if ns.len() == 0 {
        its
    } else {
        reparsed(its + named_items(ns))
    }
}

proof fn lemma_wf_concat(a: Seq<Item>, b: Seq<Item>)
    requires
        wf_items(a),
        wf_items(b),
        forall|k: int| 0 <= k < b.len() ==> !(#[trigger] b[k] is Root),
    ensures
        wf_items(a + b),
{
    let c = a + b;
    assert forall|k: int| 0 <= k < c.len() implies match #[trigger] c[k] {
        Item::Root => k == 0,
        Item::Named(t) => name_ok(t),
        _ => true,
    } by {
        if k < a.len() {
            assert(c[k] == a[k]);
        } else {
            assert(c[k] == b[k - a.len()]);
        }
    }
}

/// One appendable piece without `..` pushed onto a verbatim path with a
/// stable prefix adds its names as components and keeps the prefix.
proof fn lemma_verbatim_piece(out: Seq<char>, x: Seq<char>)
    requires
        is_verbatim(out),
        verbatim_stable(out),
        appendable(x),
        x.len() > 0,
        no_parent_part(x),
    ensures
        parse_prefix(push(out, x)) == parse_prefix(out),
        verbatim_items(push(out, x)) == grown(verbatim_items(out), name_parts(x)),
{
    assert(parse_prefix(x) is None);
    lemma_prefix_len_bound(out);
    let l = prefix_len(out) as int;
    let ns = name_parts(x);
    let io = verbatim_items(out);
    assert(piece_items(x) =~= items_of(split_on(x, false), false));
    lemma_piece_names(split_on(x, false));
    lemma_apply_named(io, ns);
    let all = io + named_items(ns);
    assert(push(out, x) == out.take(l) + render(all, true));
    lemma_body_starts_sep(out);
    if all.len() == 0 {
        assert(io.len() == 0);
        assert(ns.len() == 0) by {
            if ns.len() > 0 {
                assert(named_items(ns).len() > 0);
            }
        }
        assert(render(all, true) == Seq::<char>::empty());
        assert(out =~= out.take(l) + body(out));
        assert(push(out, x) =~= out);
    } else {
        lemma_verbatim_items_wf(out);
        lemma_names_wf(x);
        lemma_wf_concat(io, named_items(ns));
        lemma_rebuild_reads_back(out, all);
        if ns.len() == 0 {
            assert(named_items(ns) =~= Seq::<Item>::empty());
            assert(all =~= io);
        }
    }
}

/// The names of all pieces, in order.
pub open spec fn all_names(pieces: Seq<Seq<char>>) -> Seq<Seq<char>>
    decreases pieces.len(),
{
    if pieces.len() == 0 {
        Seq::empty()
    } else {
        all_names(pieces.drop_last()) + name_parts(pieces.last())
    }
}

/// An empty piece pushed onto a verbatim path with a stable prefix adds at
/// most a `\\`: the prefix and the components stay, but a path that was a
/// bare prefix gains a root.
proof fn lemma_verbatim_empty_piece(out: Seq<char>)
    requires
        is_verbatim(out),
        verbatim_stable(out),
    ensures
        parse_prefix(push(out, Seq::<char>::empty())) == parse_prefix(out),
        verbatim_items(push(out, Seq::<char>::empty())) == verbatim_items(out) || (verbatim_items(
            out,
        ).len() == 0 && verbatim_items(push(out, Seq::<char>::empty())) == seq![Item::Root]),
{
    let e = Seq::<char>::empty();
    assert(parse_prefix(e) is None);
    lemma_prefix_len_bound(out);
    let l = prefix_len(out) as int;
    lemma_body_starts_sep(out);
    if needs_sep(out) {
        let q = out.push('\\');
        assert(push(out, e) =~= q);
        if body(out).len() == 0 {
            lemma_render_root_only();
            assert(out =~= out.take(l));
            assert(q =~= out.take(l) + render(seq![Item::Root], true));
            assert forall|k: int| 0 <= k < 1 implies match #[trigger] seq![Item::Root][k] {
                Item::Root => k == 0,
                Item::Named(t) => name_ok(t),
                _ => true,
            } by {}
            lemma_rebuild_reads_back(out, seq![Item::Root]);
        } else {
            assert(q.take(l) =~= out.take(l));
            assert(q[l] == out[l]);
            assert(body(out)[0] == out[l]);
            lemma_prefix_kept(out, q);
            let b = body(out);
            assert(body(q) =~= b.push('\\'));
            let a = after_root(b);
            assert(after_root(b.push('\\')) =~= a.push('\\'));
            lemma_split_push_sep(a, true);
            let sp = split_on(a, true);
            assert(sp.push(e).drop_last() =~= sp);
            assert(item_of(e, true) is None);
            assert(items_of(sp.push(e), true) == items_of(sp, true));
            assert(b.push('\\')[0] == b[0]);
            assert(verbatim_items(q) =~= verbatim_items(out));
        }
    } else {
        assert(push(out, e) =~= out);
    }
}

proof fn lemma_verbatim_pieces(dest: Seq<char>, pieces: Seq<Seq<char>>)
    requires
        is_verbatim(dest),
        verbatim_stable(dest),
        forall|i: int|
            0 <= i < pieces.len() ==> appendable(#[trigger] pieces[i]) && no_parent_part(pieces[i]),
    ensures
        parse_prefix(push_all(dest, pieces)) == parse_prefix(dest),
        verbatim_items(push_all(dest, pieces)) == verbatim_items(dest) + named_items(
            all_names(pieces),
        ) || (verbatim_items(dest).len() == 0 && verbatim_items(push_all(dest, pieces)) == seq![
            Item::Root,
        ] + named_items(all_names(pieces))),
    decreases pieces.len(),
{
    let i0 = verbatim_items(dest);
    if pieces.len() > 0 {
        let prev = pieces.drop_last();
        assert forall|i: int| 0 <= i < prev.len() implies appendable(#[trigger] prev[i])
            && no_parent_part(prev[i]) by {
            assert(prev[i] == pieces[i]);
        }
        lemma_verbatim_pieces(dest, prev);
        let out = push_all(dest, prev);
        let x = pieces.last();
        assert(appendable(pieces[pieces.len() - 1]) && no_parent_part(pieces[pieces.len() - 1]));
        let a = all_names(prev);
        let ns = name_parts(x);
        let io = verbatim_items(out);
        let r = push_all(dest, pieces);
        assert(named_items(a + ns) =~= named_items(a) + named_items(ns));
        lemma_body_starts_sep(out);
        if x.len() == 0 {
            lemma_verbatim_empty_piece(out);
            assert(x =~= Seq::<char>::empty());
            assert(sep_index(Seq::<char>::empty(), false) == 0);
            assert(split_on(Seq::<char>::empty(), false) == seq![Seq::<char>::empty()]);
            assert(seq![Seq::<char>::empty()].drop_last() =~= Seq::<Seq<char>>::empty());
            assert(seq![Seq::<char>::empty()].last() == Seq::<char>::empty());
            assert(!is_normal(Seq::<char>::empty()));
            assert(normal_parts(Seq::<Seq<char>>::empty()) == Seq::<Seq<char>>::empty());
            assert(ns =~= Seq::<Seq<char>>::empty());
            assert(a + ns =~= a);
            if io.len() == 0 {
                assert(named_items(a).len() == 0);
                assert(a.len() == 0);
                assert(named_items(a) =~= Seq::<Item>::empty());
            }
        } else {
            lemma_verbatim_piece(out, x);
            if ns.len() == 0 {
                assert(a + ns =~= a);
            } else if io.len() == 0 {
                assert(named_items(a).len() == 0);
                assert(named_items(a) =~= Seq::<Item>::empty());
                assert(io + named_items(ns) =~= named_items(ns));
                assert(named_items(ns)[0] == Item::Named(ns[0]));
                assert(i0 + named_items(a) =~= Seq::<Item>::empty());
                assert(i0.len() == 0);
                assert(seq![Item::Root] + named_items(a + ns) =~= reparsed(io + named_items(ns)));
            } else {
                assert((io + named_items(ns))[0] == io[0]);
                assert(reparsed(io + named_items(ns)) == io + named_items(ns));
                assert(i0 + named_items(a + ns) =~= i0 + named_items(a) + named_items(ns));
                assert(seq![Item::Root] + named_items(a + ns) =~= seq![Item::Root] + named_items(a)
                    + named_items(ns));
            }
        }
    } else {
        assert(all_names(pieces) == Seq::<Seq<char>>::empty());
        assert(named_items(all_names(pieces)) =~= Seq::<Item>::empty());
        assert(i0 + named_items(all_names(pieces)) =~= i0);
    }
}

/// Under a verbatim destination too the mirrored folder stays inside: it
/// keeps the destination's prefix and components, and every component after
/// them is a name, one for each name in the source's pieces; a destination
/// that is a bare prefix such as `\\?\F:` may gain a root before them. This
/// holds for a destination whose prefix a `\\` after it leaves as it is (see
/// `verbatim_stable`), whatever its form, when no piece of the source starts
/// with a separator or a drive or holds a `..` part. It fails when the prefix
/// is not stable: under `\\?\UNC\srv` the first piece becomes the share.
pub proof fn lemma_mirror_inside_verbatim(dest: Seq<char>, src: Seq<char>)
    requires
        is_verbatim(dest),
        verbatim_stable(dest),
        forall|i: int|
            0 <= i < mirror_parts(src).len() ==> appendable(#[trigger] mirror_parts(src)[i])
                && no_parent_part(mirror_parts(src)[i]),
    ensures
        parse_prefix(mirrored(dest, src)) == parse_prefix(dest),
        verbatim_items(mirrored(dest, src)) == verbatim_items(dest) + named_items(
            all_names(mirror_parts(src)),
        ) || (verbatim_items(dest).len() == 0 && verbatim_items(mirrored(dest, src)) == seq![
            Item::Root,
        ] + named_items(all_names(mirror_parts(src)))),
{
    lemma_verbatim_pieces(dest, mirror_parts(src));
}

} // verus!
