//! Mirroring under a verbatim (`\\?\`) destination: each push rebuilds the
//! path from its components, and for a destination already in its rebuilt
//! form the mirrored folder still stays under it, one named component per
//! piece.
use vstd::prelude::*;
use crate::winpath::{
    Item, PrefixKind, apply_items, body, item_of, is_normal, is_verbatim, lemma_plain_has_no_prefix,
    mirror_parts, mirrored, piece_items, plain_piece, push, push_all, head_part, is_sep_in, item_text, items_of, lemma_sep_index_bound,
    after_root, parse_prefix, prefix_len, render, sep_index, split_on, tail_part, verbatim_items,
};

verus! {

/// Index `i` is the first separator of `s` (or its end): `sep_index` is `i`.
pub(crate) proof fn lemma_sep_index_at(s: Seq<char>, v: bool, i: int)
    requires
        0 <= i <= s.len(),
        forall|j: int| 0 <= j < i ==> !is_sep_in(#[trigger] s[j], v),
        i == s.len() || is_sep_in(s[i], v),
    ensures
        sep_index(s, v) == i,
    decreases i,
{
    if i > 0 {
        let r = s.drop_first();
        assert forall|j: int| 0 <= j < i - 1 implies !is_sep_in(#[trigger] r[j], v) by {
            assert(r[j] == s[j + 1]);
        }
        if i < s.len() {
            assert(r[i - 1] == s[i]);
        }
        lemma_sep_index_at(r, v, i - 1);
    }
}

/// Nothing before the first separator is a separator.
pub(crate) proof fn lemma_before_sep(s: Seq<char>, v: bool)
    ensures
        forall|j: int| 0 <= j < sep_index(s, v) ==> !is_sep_in(#[trigger] s[j], v),
    decreases s.len(),
{
    if s.len() > 0 && !is_sep_in(s[0], v) {
        let r = s.drop_first();
        lemma_before_sep(r, v);
        lemma_sep_index_bound(r, v);
        assert forall|j: int| 0 <= j < sep_index(s, v) implies !is_sep_in(#[trigger] s[j], v) by {
            if j > 0 {
                assert(s[j] == r[j - 1]);
            }
        }
    }
}

/// The part of `s` before its first separator is `a` when `s` starts with
/// `a`, `a` holds no separator, and a separator or the end follows.
pub(crate) proof fn lemma_head_is(s: Seq<char>, a: Seq<char>, v: bool)
    requires
        a.len() <= s.len(),
        s.take(a.len() as int) == a,
        forall|j: int| 0 <= j < a.len() ==> !is_sep_in(#[trigger] a[j], v),
        a.len() == s.len() || is_sep_in(s[a.len() as int], v),
    ensures
        sep_index(s, v) == a.len(),
        head_part(s, v) == a,
{
    assert forall|j: int| 0 <= j < a.len() implies !is_sep_in(#[trigger] s[j], v) by {
        assert(s[j] == s.take(a.len() as int)[j]);
    }
    lemma_sep_index_at(s, v, a.len() as int);
}

pub(crate) proof fn lemma_no_sep_index(s: Seq<char>, v: bool)
    requires
        forall|j: int| 0 <= j < s.len() ==> !is_sep_in(#[trigger] s[j], v),
    ensures
        sep_index(s, v) == s.len(),
{
    lemma_sep_index_at(s, v, s.len() as int);
}

/// Text appended after a separator does not move the first separator.
pub(crate) proof fn lemma_sep_index_append(s: Seq<char>, t: Seq<char>, v: bool)
    requires
        sep_index(s, v) < s.len(),
    ensures
        sep_index(s + t, v) == sep_index(s, v),
{
    lemma_before_sep(s, v);
    lemma_sep_index_bound(s, v);
    let i = sep_index(s, v) as int;
    assert forall|j: int| 0 <= j < i implies !is_sep_in(#[trigger] (s + t)[j], v) by {
        assert((s + t)[j] == s[j]);
    }
    assert((s + t)[i] == s[i]);
    lemma_sep_index_at(s + t, v, i);
}

/// Appending text without separators extends the last piece.
pub(crate) proof fn lemma_split_append(s: Seq<char>, x: Seq<char>, v: bool)
    requires
        forall|j: int| 0 <= j < x.len() ==> !is_sep_in(#[trigger] x[j], v),
    ensures
        split_on(s + x, v) == split_on(s, v).drop_last().push(split_on(s, v).last() + x),
    decreases s.len(),
{
    lemma_sep_index_bound(s, v);
    let i = sep_index(s, v);
    if i >= s.len() {
        lemma_before_sep(s, v);
        assert forall|j: int| 0 <= j < (s + x).len() implies !is_sep_in(#[trigger] (s + x)[j], v) by {
            if j < s.len() {
                assert((s + x)[j] == s[j]);
            } else {
                assert((s + x)[j] == x[j - s.len()]);
            }
        }
        lemma_no_sep_index(s + x, v);
        assert(split_on(s, v) == seq![s]);
        assert(split_on(s + x, v) == seq![s + x]);
        assert(seq![s].drop_last().push(s + x) =~= seq![s + x]);
    } else {
        lemma_sep_index_append(s, x, v);
        let rest = s.skip(i as int + 1);
        lemma_split_append(rest, x, v);
        assert((s + x).take(i as int) =~= s.take(i as int));
        assert((s + x).skip(i as int + 1) =~= rest + x);
        let head = seq![s.take(i as int)];
        assert(split_on(s, v) == head + split_on(rest, v));
        assert(split_on(s + x, v) == head + split_on(rest + x, v));
        assert(split_on(rest, v).len() > 0);
        assert((head + split_on(rest, v)).drop_last().push((head + split_on(rest, v)).last() + x)
            =~= head + split_on(rest, v).drop_last().push(split_on(rest, v).last() + x));
    }
}

/// Appending a `\` ends the last piece and starts an empty one.
pub(crate) proof fn lemma_split_push_sep(s: Seq<char>, v: bool)
    ensures
        split_on(s.push('\\'), v) == split_on(s, v).push(Seq::<char>::empty()),
    decreases s.len(),
{
    lemma_sep_index_bound(s, v);
    let i = sep_index(s, v);
    let t = s.push('\\');
    if i >= s.len() {
        lemma_before_sep(s, v);
        assert forall|j: int| 0 <= j < s.len() implies !is_sep_in(#[trigger] t[j], v) by {
            assert(t[j] == s[j]);
        }
        lemma_sep_index_at(t, v, s.len() as int);
        assert(t.take(s.len() as int) =~= s);
        assert(t.skip(s.len() as int + 1) =~= Seq::<char>::empty());
        assert(sep_index(Seq::<char>::empty(), v) == 0);
        assert(split_on(Seq::<char>::empty(), v) == seq![Seq::<char>::empty()]);
        assert(split_on(s, v) == seq![s]);
        assert(split_on(t, v) =~= seq![s] + seq![Seq::<char>::empty()]);
    } else {
        lemma_sep_index_append(s, seq!['\\'], v);
        assert(s + seq!['\\'] =~= t);
        let rest = s.skip(i as int + 1);
        lemma_split_push_sep(rest, v);
        assert(t.take(i as int) =~= s.take(i as int));
        assert(t.skip(i as int + 1) =~= rest.push('\\'));
        assert(split_on(t, v) =~= split_on(s, v).push(Seq::<char>::empty()));
    }
}

/// Rendering one more component adds it after a `\` where one is needed.
pub(crate) proof fn lemma_render_push(its: Seq<Item>, y: Item, ns: bool)
    ensures
        render(its.push(y), ns) == render(its, ns) + (if (if its.len() == 0 {
            ns
        } else {
            !(its.last() is Root)
        }) && !(y is Root) {
            seq!['\\']
        } else {
            Seq::<char>::empty()
        }) + item_text(y),
    decreases its.len(),
{
    let l = its.push(y);
    let sep_y: Seq<char> = if (if its.len() == 0 {
        ns
    } else {
        !(its.last() is Root)
    }) && !(y is Root) {
        seq!['\\']
    } else {
        Seq::<char>::empty()
    };
    if its.len() == 0 {
        assert(l[0] == y);
        assert(l.drop_first() =~= Seq::<Item>::empty());
        assert(render(l.drop_first(), !(y is Root)) == Seq::<char>::empty());
        assert(render(its, ns) == Seq::<char>::empty());
        assert(render(l, ns) =~= render(its, ns) + sep_y + item_text(y));
    } else {
        let x = its[0];
        let rest = its.drop_first();
        lemma_render_push(rest, y, !(x is Root));
        assert(l.drop_first() =~= rest.push(y));
        assert(l[0] == x);
        if rest.len() > 0 {
            assert(rest.last() == its.last());
        } else {
            assert(its.len() == 1);
            assert(its.last() == x);
        }
        let sep_x: Seq<char> = if ns && !(x is Root) {
            seq!['\\']
        } else {
            Seq::<char>::empty()
        };
        assert(render(l, ns) == sep_x + item_text(x) + render(rest.push(y), !(x is Root)));
        assert(render(its, ns) == sep_x + item_text(x) + render(rest, !(x is Root)));
        assert(render(l, ns) =~= render(its, ns) + sep_y + item_text(y));
    }
}

pub open spec fn not_root_item(it: Item) -> bool {
    !(it is Root)
}

pub(crate) proof fn lemma_items_of_no_root(ps: Seq<Seq<char>>, v: bool)
    ensures
        forall|k: int| 0 <= k < items_of(ps, v).len() ==> !(#[trigger] items_of(ps, v)[k] is Root),
    decreases ps.len(),
{
    if ps.len() > 0 {
        lemma_items_of_no_root(ps.drop_last(), v);
    }
}

/// A verbatim path in the form its rebuild gives: the prefix, then its
/// components written out.
pub open spec fn verbatim_normal(p: Seq<char>) -> bool {
    p == p.take(prefix_len(p) as int) + render(verbatim_items(p), true)
}

/// A verbatim prefix that a `\` written after it leaves as it is: a drive, a
/// server with its share, or a name other than `UNC`.
pub open spec fn verbatim_stable(p: Seq<char>) -> bool {
    match parse_prefix(p) {
        Some(x) => x.kind == PrefixKind::VerbatimDisk || (x.kind == PrefixKind::VerbatimUnc
            && x.second.len() > 0) || (x.kind == PrefixKind::Verbatim && x.first != seq![
            'U',
            'N',
            'C',
        ]),
        None => false,
    }
}

pub(crate) proof fn lemma_prefix_len_bound(p: Seq<char>)
    ensures
        prefix_len(p) <= p.len(),
{
    match parse_prefix(p) {
        Some(x) => {
            if x.kind == PrefixKind::VerbatimUnc {
                let rest = p.skip(8);
                lemma_sep_index_bound(rest, true);
                lemma_sep_index_bound(tail_part(rest, true), true);
            } else if x.kind == PrefixKind::Verbatim {
                lemma_sep_index_bound(p.skip(4), true);
            } else if x.kind == PrefixKind::DeviceNs {
                lemma_sep_index_bound(p.skip(4), false);
            } else if x.kind == PrefixKind::Unc {
                let rest = p.skip(2);
                lemma_sep_index_bound(rest, false);
                lemma_sep_index_bound(tail_part(rest, false), false);
            }
        },
        None => {},
    }
}

/// A stable verbatim prefix is read the same from any path that starts with
/// it and has a `\` right after it (or a `/`, after a drive).
pub(crate) proof fn lemma_prefix_kept(p: Seq<char>, q: Seq<char>)
    requires
        verbatim_stable(p),
        q.len() > prefix_len(p),
        q.take(prefix_len(p) as int) == p.take(prefix_len(p) as int),
        q[prefix_len(p) as int] == '\\' || (q[prefix_len(p) as int] == '/' && parse_prefix(
            p,
        ).unwrap().kind == PrefixKind::VerbatimDisk),
    ensures
        parse_prefix(q) == parse_prefix(p),
{
    lemma_prefix_len_bound(p);
    let l = prefix_len(p) as int;
    assert forall|i: int| 0 <= i < l implies #[trigger] q[i] == p[i] by {
        assert(q[i] == q.take(l)[i]);
        assert(p[i] == p.take(l)[i]);
    }
    let x = parse_prefix(p).unwrap();
    assert(l >= 4);
    assert(q[0] == p[0] && q[1] == p[1] && q[2] == p[2] && q[3] == p[3]);
    if x.kind == PrefixKind::VerbatimUnc {
        let rest_p = p.skip(8);
        let server = x.first;
        let share = x.second;
        lemma_sep_index_bound(rest_p, true);
        lemma_before_sep(rest_p, true);
        let i = sep_index(rest_p, true) as int;
        assert(i < rest_p.len());
        let tail_p = p.skip(9 + i);
        assert(tail_p =~= tail_part(rest_p, true));
        lemma_sep_index_bound(tail_p, true);
        lemma_before_sep(tail_p, true);
        assert(l == 9 + i + share.len());
        assert(q[4] == p[4] && q[5] == p[5] && q[6] == p[6] && q[7] == p[7]);
        let rest_q = q.skip(8);
        assert(rest_q.take(i) =~= server);
        assert(rest_q[i] == p[8 + i]);
        assert(p[8 + i] == rest_p[i]);
        lemma_head_is(rest_q, server, true);
        let tail_q = q.skip(9 + i);
        assert(tail_q =~= tail_part(rest_q, true));
        assert(tail_q.take(share.len() as int) =~= share);
        assert(tail_q[share.len() as int] == q[l]);
        lemma_head_is(tail_q, share, true);
    } else if x.kind == PrefixKind::VerbatimDisk {
        let rest_p = p.skip(4);
        assert(rest_p[0] == p[4] && rest_p[1] == p[5]);
        let rest_q = q.skip(4);
        assert(rest_q[0] == q[4] && rest_q[1] == q[5] && rest_q[2] == q[6]);
        assert(q[4] == p[4] && q[5] == p[5]);
    } else {
        let rest_p = p.skip(4);
        let name = x.first;
        lemma_sep_index_bound(rest_p, true);
        lemma_before_sep(rest_p, true);
        let n = name.len() as int;
        assert(l == 4 + n);
        let rest_q = q.skip(4);
        assert(rest_q.take(n) =~= name);
        assert(rest_q[n] == q[l]);
        lemma_head_is(rest_q, name, true);
        assert forall|k: int| 0 <= k < n implies #[trigger] name[k] == p[4 + k] by {
            assert(name[k] == rest_p[k]);
        }
        if n >= 4 {
            assert(q[4] == p[4] && q[5] == p[5] && q[6] == p[6] && q[7] == p[7]);
            assert(rest_q[0] == rest_p[0] && rest_q[1] == rest_p[1] && rest_q[2] == rest_p[2]);
        } else if n == 3 {
            assert(q[7] == '\\');
            assert(q[4] == p[4] && q[5] == p[5] && q[6] == p[6]);
            if q[4] == 'U' && q[5] == 'N' && q[6] == 'C' {
                assert(name =~= seq!['U', 'N', 'C']);
            }
            assert(rest_q[0] == rest_p[0] && rest_q[1] == rest_p[1] && rest_q[2] == rest_p[2]);
            assert(rest_p.len() >= 3);
        } else if n == 2 {
            assert(q[6] == '\\');
            assert(rest_q[0] == rest_p[0] && rest_q[1] == rest_p[1]);
            assert(rest_q[2] == '\\');
            assert(rest_p.len() == 2 || rest_p[2] == '\\');
        } else if n == 1 {
            assert(q[5] == '\\');
            assert(rest_q[1] == '\\');
        } else {
            assert(q[4] == '\\');
            assert(rest_q[0] == '\\');
        }
    }
}

pub(crate) proof fn lemma_render_starts_with_sep(its: Seq<Item>)
    requires
        its.len() > 0,
    ensures
        render(its, true).len() > 0,
        render(its, true)[0] == '\\',
{
    let x = its[0];
    let rest = render(its.drop_first(), !(x is Root));
    if x is Root {
        assert(render(its, true) =~= seq!['\\'] + rest);
    } else {
        assert(render(its, true) =~= seq!['\\'] + item_text(x) + rest);
    }
}

pub(crate) proof fn lemma_render_root_only()
    ensures
        render(seq![Item::Root], true) == seq!['\\'],
{
    assert(seq![Item::Root].drop_first() =~= Seq::<Item>::empty());
    assert(render(Seq::<Item>::empty(), false) == Seq::<char>::empty());
    assert(seq![Item::Root][0] == Item::Root);
    assert(render(seq![Item::Root], true) =~= seq!['\\']);
}

/// The components after a `\` and a plain piece `x`: a root and `x`.
proof fn lemma_items_after_root(q: Seq<char>, x: Seq<char>)
    requires
        is_verbatim(q),
        body(q) == seq!['\\'] + x,
        plain_piece(x),
        is_normal(x),
    ensures
        verbatim_items(q) == seq![Item::Root, Item::Named(x)],
        render(verbatim_items(q), true) == body(q),
{
    let b = seq!['\\'] + x;
    assert(b[0] == '\\');
    lemma_sep_index_at(b, true, 0);
    assert(b.take(0) =~= Seq::<char>::empty());
    assert(b.skip(1) =~= x);
    lemma_no_sep_index(x, true);
    assert(split_on(x, true) == seq![x]);
    let pieces = split_on(b, true);
    assert(pieces =~= seq![Seq::<char>::empty(), x]);
    assert(pieces.drop_last() =~= seq![Seq::<char>::empty()]);
    assert(seq![Seq::<char>::empty()].drop_last() =~= Seq::<Seq<char>>::empty());
    assert(items_of(Seq::<Seq<char>>::empty(), true) == Seq::<Item>::empty());
    assert(seq![Seq::<char>::empty()].last() == Seq::<char>::empty());
    assert(item_of(Seq::<char>::empty(), true) is None);
    assert(items_of(seq![Seq::<char>::empty()], true) == Seq::<Item>::empty());
    assert(pieces.last() == x);
    assert(item_of(x, true) == Some(Item::Named(x)));
    assert(items_of(pieces, true) =~= seq![Item::Named(x)]);
    assert(verbatim_items(q) =~= seq![Item::Root, Item::Named(x)]);
    lemma_render_push(seq![Item::Root], Item::Named(x), true);
    lemma_render_root_only();
    assert(seq![Item::Root].push(Item::Named(x)) =~= seq![Item::Root, Item::Named(x)]);
    assert(render(seq![Item::Root, Item::Named(x)], true) =~= b);
}

/// A plain named piece is one named component.
proof fn lemma_piece_one(x: Seq<char>)
    requires
        plain_piece(x),
        is_normal(x),
    ensures
        piece_items(x) == seq![Item::Named(x)],
        parse_prefix(x) is None,
{
    lemma_plain_has_no_prefix(x);
    lemma_no_sep_index(x, false);
    assert(split_on(x, false) == seq![x]);
    assert(seq![x].drop_last() =~= Seq::<Seq<char>>::empty());
    assert(items_of(Seq::<Seq<char>>::empty(), false) == Seq::<Item>::empty());
    assert(seq![x].last() == x);
    assert(item_of(x, false) == Some(Item::Named(x)));
    assert(items_of(seq![x], false) =~= seq![Item::Named(x)]);
    assert(piece_items(x) =~= seq![Item::Named(x)]);
}

/// The separator written before a piece pushed onto a rebuilt verbatim path.
pub open spec fn verbatim_sep(p: Seq<char>) -> Seq<char> {
    if verbatim_items(p) == seq![Item::Root] {
        Seq::<char>::empty()
    } else {
        seq!['\\']
    }
}

proof fn lemma_last_root(p: Seq<char>)
    ensures
        verbatim_items(p).len() > 0 && verbatim_items(p).last() is Root ==> verbatim_items(p)
            == seq![Item::Root],
{
    let its = verbatim_items(p);
    let k = items_of(split_on(after_root(body(p)), true), true);
    lemma_items_of_no_root(split_on(after_root(body(p)), true), true);
    if its.len() > 0 && its.last() is Root {
        if k.len() > 0 {
            assert(its.last() == k[k.len() - 1]);
        }
        assert(its =~= seq![Item::Root]);
    }
}

#[verifier::spinoff_prover]
proof fn lemma_verbatim_push_text(p: Seq<char>, x: Seq<char>)
    requires
        is_verbatim(p),
        verbatim_normal(p),
        plain_piece(x),
        is_normal(x),
    ensures
        push(p, x) == p + verbatim_sep(p) + x,
{
    lemma_prefix_len_bound(p);
    let l = prefix_len(p) as int;
    let its = verbatim_items(p);
    lemma_piece_one(x);
    assert(seq![Item::Named(x)].drop_last() =~= Seq::<Item>::empty());
    assert(apply_items(its, Seq::<Item>::empty()) == its);
    assert(seq![Item::Named(x)].last() == Item::Named(x));
    assert(apply_items(its, seq![Item::Named(x)]) == its.push(Item::Named(x)));
    lemma_render_push(its, Item::Named(x), true);
    lemma_last_root(p);
    assert(push(p, x) =~= p + verbatim_sep(p) + x);
}

/// The character right after the prefix of a rebuilt verbatim path, if any,
/// is a `\`.
proof fn lemma_after_prefix(p: Seq<char>)
    requires
        verbatim_normal(p),
    ensures
        p.len() == prefix_len(p) <==> verbatim_items(p).len() == 0,
        p.len() > prefix_len(p) ==> p[prefix_len(p) as int] == '\\',
        body(p) == render(verbatim_items(p), true),
{
    lemma_prefix_len_bound(p);
    let l = prefix_len(p) as int;
    let its = verbatim_items(p);
    assert(body(p) =~= render(its, true)) by {
        assert(p.skip(l) =~= (p.take(l) + render(its, true)).skip(l));
    }
    if its.len() > 0 {
        lemma_render_starts_with_sep(its);
        assert(p[l] == body(p)[0]);
    } else {
        assert(render(its, true) == Seq::<char>::empty());
    }
}

#[verifier::spinoff_prover]
proof fn lemma_verbatim_items_extend(p: Seq<char>, q: Seq<char>, x: Seq<char>)
    requires
        is_verbatim(q),
        verbatim_normal(p),
        verbatim_items(p).len() > 0,
        verbatim_items(p) != seq![Item::Root],
        body(q) == body(p).push('\\') + x,
        plain_piece(x),
        is_normal(x),
    ensures
        verbatim_items(q) == verbatim_items(p).push(Item::Named(x)),
        render(verbatim_items(q), true) == body(q),
{
    lemma_after_prefix(p);
    let its = verbatim_items(p);
    let bp = body(p);
    let bq = body(q);
    lemma_render_starts_with_sep(its);
    let k = items_of(split_on(bp, true), true);
    assert(its == seq![Item::Root] + k);
    lemma_split_push_sep(bp, true);
    assert forall|j: int| 0 <= j < x.len() implies !is_sep_in(#[trigger] x[j], true) by {
        assert(!crate::winpath::is_sep(x[j]));
    }
    lemma_split_append(bp.push('\\'), x, true);
    let sp = split_on(bp, true);
    assert(split_on(bq, true) =~= sp.push(x)) by {
        assert(sp.push(Seq::<char>::empty()).drop_last() =~= sp);
        assert(Seq::<char>::empty() + x =~= x);
    }
    assert(sp.push(x).drop_last() =~= sp);
    assert(sp.push(x).last() == x);
    assert(item_of(x, true) == Some(Item::Named(x)));
    assert(items_of(sp.push(x), true) == k.push(Item::Named(x)));
    assert(bq[0] == '\\');
    assert(verbatim_items(q) =~= its.push(Item::Named(x)));
    lemma_last_root(p);
    lemma_render_push(its, Item::Named(x), true);
    assert(render(verbatim_items(q), true) =~= bq);
}

/// The components of a verbatim path once something is pushed after it: a
/// path that is only its prefix gains a root.
pub open spec fn rooted(its: Seq<Item>) -> Seq<Item> {
    if its.len() == 0 {
        seq![Item::Root]
    } else {
        its
    }
}

/// One named component for each piece.
pub open spec fn named_items(pieces: Seq<Seq<char>>) -> Seq<Item> {
    pieces.map_values(|x: Seq<char>| Item::Named(x))
}

/// A plain named piece pushed onto a stable verbatim path in rebuilt form is
/// written after it, after a `\` unless the path is only its prefix and root;
/// the result keeps the prefix and the rebuilt form.
pub proof fn lemma_verbatim_step(p: Seq<char>, x: Seq<char>)
    requires
        is_verbatim(p),
        verbatim_stable(p),
        verbatim_normal(p),
        plain_piece(x),
        is_normal(x),
    ensures
        push(p, x) == p + verbatim_sep(p) + x,
        parse_prefix(push(p, x)) == parse_prefix(p),
        verbatim_normal(push(p, x)),
        verbatim_items(push(p, x)) == rooted(verbatim_items(p)).push(Item::Named(x)),
{
    lemma_prefix_len_bound(p);
    lemma_verbatim_push_text(p, x);
    lemma_after_prefix(p);
    let l = prefix_len(p) as int;
    let its = verbatim_items(p);
    let q = push(p, x);
    let sep = verbatim_sep(p);
    if its.len() > 0 {
        assert(q[l] == p[l]);
    } else {
        assert(sep == seq!['\\']);
        assert(q[l] == '\\');
    }
    assert(q.take(l) =~= p.take(l));
    lemma_prefix_kept(p, q);
    assert(prefix_len(q) == l);
    let bq = body(q);
    if its.len() == 0 || its == seq![Item::Root] {
        if its.len() > 0 {
            lemma_render_root_only();
        }
        assert(bq =~= seq!['\\'] + x);
        lemma_items_after_root(q, x);
    } else {
        assert(bq =~= body(p).push('\\') + x);
        lemma_verbatim_items_extend(p, q, x);
    }
    assert(q =~= q.take(l) + bq);
    assert(verbatim_items(q) =~= rooted(its).push(Item::Named(x)));
}

/// `dest` followed by each piece, each after a `\` except a first piece
/// written right after a destination that is only its prefix and root (such
/// as `\\?\F:\`).
pub open spec fn under_verbatim(dest: Seq<char>, pieces: Seq<Seq<char>>) -> Seq<char>
    decreases pieces.len(),
{
    if pieces.len() == 0 {
        dest
    } else {
        let out = under_verbatim(dest, pieces.drop_last());
        if pieces.len() == 1 {
            out + verbatim_sep(dest) + pieces.last()
        } else {
            out.push('\\') + pieces.last()
        }
    }
}

proof fn lemma_under_verbatim(dest: Seq<char>, pieces: Seq<Seq<char>>)
    requires
        is_verbatim(dest),
        verbatim_stable(dest),
        verbatim_normal(dest),
        forall|i: int| 0 <= i < pieces.len() ==> plain_piece(#[trigger] pieces[i]) && is_normal(
            pieces[i],
        ),
    ensures
        push_all(dest, pieces) == under_verbatim(dest, pieces),
        parse_prefix(under_verbatim(dest, pieces)) == parse_prefix(dest),
        verbatim_normal(under_verbatim(dest, pieces)),
        pieces.len() > 0 ==> verbatim_items(under_verbatim(dest, pieces)) == rooted(
            verbatim_items(dest),
        ) + named_items(pieces),
        under_verbatim(dest, pieces).len() >= dest.len(),
        under_verbatim(dest, pieces).take(dest.len() as int) == dest,
    decreases pieces.len(),
{
    if pieces.len() == 0 {
        assert(dest.take(dest.len() as int) =~= dest);
    } else {
        let prev = pieces.drop_last();
        assert forall|i: int| 0 <= i < prev.len() implies plain_piece(#[trigger] prev[i])
            && is_normal(prev[i]) by {
            assert(prev[i] == pieces[i]);
        }
        lemma_under_verbatim(dest, prev);
        let out = under_verbatim(dest, prev);
        let x = pieces.last();
        assert(plain_piece(pieces[pieces.len() - 1]) && is_normal(pieces[pieces.len() - 1]));
        assert(is_verbatim(out));
        assert(verbatim_stable(out));
        lemma_verbatim_step(out, x);
        if prev.len() > 0 {
            assert(verbatim_items(out).len() > 0);
            assert(verbatim_items(out) != seq![Item::Root]) by {
                assert(verbatim_items(out).last() == Item::Named(prev.last()));
            }
            assert(verbatim_sep(out) == seq!['\\']);
            assert(out + verbatim_sep(out) + x =~= out.push('\\') + x);
        } else {
            assert(out == dest);
        }
        let r = under_verbatim(dest, pieces);
        let tail = if prev.len() == 0 {
            verbatim_sep(dest) + x
        } else {
            seq!['\\'] + x
        };
        assert(r =~= out + tail);
        assert(named_items(pieces) =~= named_items(prev).push(Item::Named(x)));
        assert(verbatim_items(r) =~= rooted(verbatim_items(dest)) + named_items(pieces));
        assert(r.take(dest.len() as int) =~= out.take(dest.len() as int));
    }
}

/// Under a verbatim destination too, the mirrored folder stays under the
/// destination: it starts with the destination, keeps its prefix, and its
/// components are those of the destination (with a root where it had none)
/// followed by one named component per piece: `C:\Users\ted` under
/// `\\?\F:\b` is `\\?\F:\b\c\Users\ted`. This holds for a destination in the
/// form a rebuild gives it (no doubled or trailing separator, which the first
/// push would remove) whose prefix a following `\` leaves as it is, when every
/// piece of the source is a name with no separator, no drive, and is not `.`
/// or `..`.
pub proof fn lemma_mirror_under_verbatim_dest(dest: Seq<char>, src: Seq<char>)
    requires
        is_verbatim(dest),
        verbatim_stable(dest),
        verbatim_normal(dest),
        forall|i: int|
            0 <= i < mirror_parts(src).len() ==> plain_piece(#[trigger] mirror_parts(src)[i])
                && is_normal(mirror_parts(src)[i]),
    ensures
        mirrored(dest, src) == under_verbatim(dest, mirror_parts(src)),
        mirrored(dest, src).take(dest.len() as int) == dest,
        parse_prefix(mirrored(dest, src)) == parse_prefix(dest),
        mirror_parts(src).len() > 0 ==> verbatim_items(mirrored(dest, src)) == rooted(
            verbatim_items(dest),
        ) + named_items(mirror_parts(src)),
{
    lemma_under_verbatim(dest, mirror_parts(src));
}

} // verus!
