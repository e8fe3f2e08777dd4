//! Windows path rules, on characters: prefixes (`C:`, `\\server\share`,
//! `\\?\...`), components, and how a path grows when a piece is pushed onto
//! it. The backup mirrors every source folder under a destination folder with
//! these rules, whatever system the library runs on.
use vstd::prelude::*;
use crate::text::{to_lower, ascii_lower, chars_of, string_of, copy_range, copy_chars};

verus! {

/// `\` or `/`: both separate the components of an ordinary path.
pub open spec fn is_sep(c: char) -> bool {
    c == '\\' || c == '/'
}

/// The separators of a path: in a verbatim (`\\?\`) path only `\`.
pub open spec fn is_sep_in(c: char, verbatim: bool) -> bool {
    if verbatim {
        c == '\\'
    } else {
        is_sep(c)
    }
}

pub open spec fn is_ascii_alpha(c: char) -> bool {
    ('a' <= c <= 'z') || ('A' <= c <= 'Z')
}

/// `s` starts with a drive: an ASCII letter and a colon.
pub open spec fn drive_at(s: Seq<char>) -> bool {
    s.len() >= 2 && is_ascii_alpha(s[0]) && s[1] == ':'
}

/// The character at `i` as the prefix parser compares it: among the first
/// eight characters, `/` counts as `\`.
pub open spec fn matched(p: Seq<char>, i: int) -> char {
    if i < 8 && p[i] == '/' {
        '\\'
    } else {
        p[i]
    }
}

/// Index of the first separator in `s`, or its length when it has none.
pub open spec fn sep_index(s: Seq<char>, verbatim: bool) -> nat
    decreases s.len(),
{
    if s.len() == 0 {
        0
    } else if is_sep_in(s[0], verbatim) {
        0
    } else {
        1 + sep_index(s.drop_first(), verbatim)
    }
}

/// The characters of `s` before its first separator.
pub open spec fn head_part(s: Seq<char>, verbatim: bool) -> Seq<char> {
    s.take(sep_index(s, verbatim) as int)
}

/// The characters of `s` after its first separator (none if it has none).
pub open spec fn tail_part(s: Seq<char>, verbatim: bool) -> Seq<char> {
    let i: nat = sep_index(s, verbatim);
    if i < s.len() {
        s.skip(i as int + 1)
    } else {
        Seq::empty()
    }
}

#[derive(PartialEq, Eq, Clone, Copy, Debug, Structural)]
pub enum PrefixKind {
    /// `\\?\name`
    Verbatim,
    /// `\\?\UNC\server\share`
    VerbatimUnc,
    /// `\\?\C:`
    VerbatimDisk,
    /// `\\.\device`
    DeviceNs,
    /// `\\server\share`
    Unc,
    /// `C:`
    Disk,
}

/// A parsed prefix: its kind, the names it holds (server and share, or the
/// one name of a verbatim or device prefix) and, for a disk, the drive letter
/// as written.
pub struct PathPrefix {
    pub kind: PrefixKind,
    pub first: Seq<char>,
    pub second: Seq<char>,
    pub drive: char,
}

pub open spec fn named_prefix(kind: PrefixKind, first: Seq<char>, second: Seq<char>) -> PathPrefix {
    PathPrefix { kind, first, second, drive: ' ' }
}

pub open spec fn disk_prefix(kind: PrefixKind, drive: char) -> PathPrefix {
    PathPrefix { kind, first: Seq::empty(), second: Seq::empty(), drive }
}

/// The prefix of a Windows path, if it has one.
pub open spec fn parse_prefix(p: Seq<char>) -> Option<PathPrefix> {
    if p.len() >= 2 && matched(p, 0) == '\\' && matched(p, 1) == '\\' {
        if p.len() >= 4 && p[0] == '\\' && p[1] == '\\' && p[2] == '?' && p[3] == '\\' {
            if p.len() >= 8 && p[4] == 'U' && p[5] == 'N' && p[6] == 'C' && matched(p, 7) == '\\' {
                let rest = p.skip(8);
                Some(
                    named_prefix(
                        PrefixKind::VerbatimUnc,
                        head_part(rest, true),
                        head_part(tail_part(rest, true), true),
                    ),
                )
            } else {
                let rest = p.skip(4);
                if drive_at(rest) && (rest.len() == 2 || is_sep(rest[2])) {
                    Some(disk_prefix(PrefixKind::VerbatimDisk, rest[0]))
                } else {
                    Some(named_prefix(PrefixKind::Verbatim, head_part(rest, true), Seq::empty()))
                }
            }
        } else if p.len() >= 4 && matched(p, 2) == '.' && matched(p, 3) == '\\' {
            Some(named_prefix(PrefixKind::DeviceNs, head_part(p.skip(4), false), Seq::empty()))
        } else {
            let rest = p.skip(2);
            let server = head_part(rest, false);
            let share = head_part(tail_part(rest, false), false);
            if server.len() > 0 && share.len() > 0 {
                Some(named_prefix(PrefixKind::Unc, server, share))
            } else {
                None
            }
        }
    } else if drive_at(p) {
        Some(disk_prefix(PrefixKind::Disk, p[0]))
    } else {
        None
    }
}

/// Number of characters that the prefix takes.
pub open spec fn prefix_len(p: Seq<char>) -> nat {
    match parse_prefix(p) {
        None => 0,
        Some(x) => match x.kind {
            PrefixKind::Verbatim => 4 + x.first.len(),
            PrefixKind::VerbatimUnc => 8 + x.first.len() + if x.second.len() > 0 {
                1 + x.second.len()
            } else {
                0
            },
            PrefixKind::VerbatimDisk => 6,
            PrefixKind::DeviceNs => 4 + x.first.len(),
            PrefixKind::Unc => 2 + x.first.len() + if x.second.len() > 0 {
                1 + x.second.len()
            } else {
                0
            },
            PrefixKind::Disk => 2,
        },
    }
}

/// The path has a verbatim (`\\?\`) prefix.
pub open spec fn is_verbatim(p: Seq<char>) -> bool {
    match parse_prefix(p) {
        Some(x) => x.kind == PrefixKind::Verbatim || x.kind == PrefixKind::VerbatimUnc
            || x.kind == PrefixKind::VerbatimDisk,
        None => false,
    }
}

/// What follows the prefix.
pub open spec fn body(p: Seq<char>) -> Seq<char> {
    p.skip(prefix_len(p) as int)
}

/// The pieces of `s` between its separators, empty pieces included.
pub open spec fn split_on(s: Seq<char>, verbatim: bool) -> Seq<Seq<char>>
    decreases s.len(),
{
    let i: nat = sep_index(s, verbatim);
    if i >= s.len() {
        seq![s]
    } else {
        seq![s.take(i as int)] + split_on(s.skip(i as int + 1), verbatim)
    }
}

/// A piece that names a file or folder: not empty, not `.` and not `..`.
pub open spec fn is_normal(x: Seq<char>) -> bool {
    x.len() > 0 && x != seq!['.'] && x != seq!['.', '.']
}

/// The pieces that name files or folders, in order.
pub open spec fn normal_parts(pieces: Seq<Seq<char>>) -> Seq<Seq<char>>
    decreases pieces.len(),
{
    if pieces.len() == 0 {
        Seq::empty()
    } else {
        let rest = normal_parts(pieces.drop_last());
        if is_normal(pieces.last()) {
            rest.push(pieces.last())
        } else {
            rest
        }
    }
}

/// What follows the root of a verbatim path's body: a `/` right after the
/// prefix is still the root, though `/` separates nothing further on.
pub open spec fn after_root(b: Seq<char>) -> Seq<char> {
    if b.len() > 0 && b[0] == '/' {
        b.skip(1)
    } else {
        b
    }
}

/// The text of a path after its prefix that its components are read from.
pub open spec fn component_text(p: Seq<char>) -> Seq<char> {
    if is_verbatim(p) {
        after_root(body(p))
    } else {
        body(p)
    }
}

/// The ordinary (named) components of a path, after its prefix.
pub open spec fn normals(p: Seq<char>) -> Seq<Seq<char>> {
    normal_parts(split_on(component_text(p), is_verbatim(p)))
}

/// What a prefix contributes to the mirrored path: the drive letter in lower
/// case, or the server and the share.
pub open spec fn prefix_parts(pp: Option<PathPrefix>) -> Seq<Seq<char>> {
    match pp {
        Some(x) => match x.kind {
            PrefixKind::Disk | PrefixKind::VerbatimDisk => seq![seq![to_lower(x.drive)]],
            PrefixKind::Unc | PrefixKind::VerbatimUnc => seq![x.first, x.second],
            _ => Seq::empty(),
        },
        None => Seq::empty(),
    }
}

/// The pieces that `mirror_path` pushes for `src`, in order.
pub open spec fn mirror_parts(src: Seq<char>) -> Seq<Seq<char>> {
    prefix_parts(parse_prefix(src)) + normals(src)
}

/// A component of a verbatim path, as kept when such a path is rebuilt.
pub enum Item {
    Root,
    Cur,
    Parent,
    Named(Seq<char>),
}

pub open spec fn item_of(x: Seq<char>, verbatim: bool) -> Option<Item> {
    if x.len() == 0 {
        None
    } else if x == seq!['.'] {
        if verbatim {
            Some(Item::Cur)
        } else {
            None
        }
    } else if x == seq!['.', '.'] {
        Some(Item::Parent)
    } else {
        Some(Item::Named(x))
    }
}

pub open spec fn items_of(pieces: Seq<Seq<char>>, verbatim: bool) -> Seq<Item>
    decreases pieces.len(),
{
    if pieces.len() == 0 {
        Seq::empty()
    } else {
        let rest = items_of(pieces.drop_last(), verbatim);
        match item_of(pieces.last(), verbatim) {
            Some(it) => rest.push(it),
            None => rest,
        }
    }
}

/// The components of a verbatim path after its prefix.
pub open spec fn verbatim_items(out: Seq<char>) -> Seq<Item> {
    let b = body(out);
    let root: Seq<Item> = if b.len() > 0 && is_sep(b[0]) {
        seq![Item::Root]
    } else {
        Seq::empty()
    };
    root + items_of(split_on(after_root(b), true), true)
}

/// The components of a piece with no prefix.
pub open spec fn piece_items(piece: Seq<char>) -> Seq<Item> {
    let root: Seq<Item> = if piece.len() > 0 && is_sep(piece[0]) {
        seq![Item::Root]
    } else {
        Seq::empty()
    };
    root + items_of(split_on(piece, false), false)
}

/// One component pushed onto a verbatim path: a root drops all but the prefix,
/// `.` is dropped, `..` removes a preceding name.
pub open spec fn apply_item(buf: Seq<Item>, it: Item) -> Seq<Item> {
    match it {
        Item::Root => seq![Item::Root],
        Item::Cur => buf,
        Item::Parent => if buf.len() > 0 && buf.last() is Named {
            buf.drop_last()
        } else {
            buf
        },
        Item::Named(t) => buf.push(Item::Named(t)),
    }
}

pub open spec fn apply_items(buf: Seq<Item>, its: Seq<Item>) -> Seq<Item>
    decreases its.len(),
{
    if its.len() == 0 {
        buf
    } else {
        apply_item(apply_items(buf, its.drop_last()), its.last())
    }
}

pub open spec fn item_text(it: Item) -> Seq<char> {
    match it {
        Item::Root => seq!['\\'],
        Item::Cur => seq!['.'],
        Item::Parent => seq!['.', '.'],
        Item::Named(t) => t,
    }
}

/// Components written out: a `\` before each one, except a root and what
/// directly follows a root.
pub open spec fn render(items: Seq<Item>, need_sep: bool) -> Seq<char>
    decreases items.len(),
{
    if items.len() == 0 {
        Seq::empty()
    } else {
        let x = items[0];
        let sep: Seq<char> = if need_sep && !(x is Root) {
            seq!['\\']
        } else {
            Seq::empty()
        };
        sep + item_text(x) + render(items.drop_first(), !(x is Root))
    }
}

/// A piece pushed onto a verbatim path: the whole path is rebuilt from its
/// components.
pub open spec fn verbatim_push(out: Seq<char>, piece: Seq<char>) -> Seq<char> {
    out.take(prefix_len(out) as int) + render(
        apply_items(verbatim_items(out), piece_items(piece)),
        true,
    )
}

/// A `\` is needed before a pushed piece: the path is not empty, does not end
/// with a separator and is not a bare drive such as `C:`.
pub open spec fn needs_sep(out: Seq<char>) -> bool {
    out.len() > 0 && !is_sep(out.last()) && !(out.len() == 2 && drive_at(out))
}

/// `out` after pushing `piece` (`PathBuf::push` on Windows): a piece with a
/// prefix replaces the path; onto a verbatim path the result is rebuilt from
/// its components; a piece that starts with a separator keeps only the prefix
/// of `out`; any other piece is appended, after a `\` where one is needed.
pub open spec fn push(out: Seq<char>, piece: Seq<char>) -> Seq<char> {
    if parse_prefix(piece) is Some {
        piece
    } else if is_verbatim(out) && piece.len() > 0 {
        verbatim_push(out, piece)
    } else if piece.len() > 0 && is_sep(piece[0]) {
        out.take(prefix_len(out) as int) + piece
    } else if needs_sep(out) {
        out.push('\\') + piece
    } else {
        out + piece
    }
}

/// `out` after pushing each piece in turn.
pub open spec fn push_all(out: Seq<char>, pieces: Seq<Seq<char>>) -> Seq<char>
    decreases pieces.len(),
{
    if pieces.len() == 0 {
        out
    } else {
        push(push_all(out, pieces.drop_last()), pieces.last())
    }
}

/// Where `mirror_path` puts the source folder `src` under `dest`.
pub open spec fn mirrored(dest: Seq<char>, src: Seq<char>) -> Seq<char> {
    push_all(dest, mirror_parts(src))
}

/// The character sequences held by a vector of character vectors.
pub open spec fn parts(v: Seq<Vec<char>>) -> Seq<Seq<char>> {
    v.map_values(|x: Vec<char>| x@)
}

pub proof fn lemma_sep_index_bound(s: Seq<char>, verbatim: bool)
    ensures
        sep_index(s, verbatim) <= s.len(),
        sep_index(s, verbatim) < s.len() ==> is_sep_in(s[sep_index(s, verbatim) as int], verbatim),
    decreases s.len(),
{
    if s.len() > 0 && !is_sep_in(s[0], verbatim) {
        lemma_sep_index_bound(s.drop_first(), verbatim);
    }
}

fn sep_char(c: char, verbatim: bool) -> (b: bool)
    ensures
        b == is_sep_in(c, verbatim),
{
    if verbatim {
        c == '\\'
    } else {
        c == '\\' || c == '/'
    }
}

/// Index of the first separator in `p` at or after `start`, or `p.len()`.
fn find_sep(p: &Vec<char>, start: usize, verbatim: bool) -> (i: usize)
    requires
        start <= p.len(),
    ensures
        start <= i <= p.len(),
        i == start + sep_index(p@.skip(start as int), verbatim),
{
    let mut j: usize = start;
    while j < p.len() && !sep_char(p[j], verbatim)
        invariant
            start <= j <= p.len(),
            sep_index(p@.skip(start as int), verbatim) == (j - start) + sep_index(
                p@.skip(j as int),
                verbatim,
            ),
        decreases p.len() - j,
    {
        assert(p@.skip(j as int).drop_first() =~= p@.skip(j + 1));
        j = j + 1;
    }
    if j < p.len() {
        assert(p@.skip(j as int)[0] == p@[j as int]);
    }
    j
}

/// The first separator-delimited part of `p` from `start`: its end, and the
/// start of the part after it (`p.len()` when there is none).
fn next_part(p: &Vec<char>, start: usize, verbatim: bool) -> (r: (usize, usize))
    requires
        start <= p.len(),
    ensures
        start <= r.0 <= r.1 <= p.len(),
        p@.subrange(start as int, r.0 as int) == head_part(p@.skip(start as int), verbatim),
        p@.skip(r.1 as int) == tail_part(p@.skip(start as int), verbatim),
        r.0 < p.len() ==> r.1 == r.0 + 1,
        r.0 == p.len() ==> r.1 == p.len(),
{
    let i: usize = find_sep(p, start, verbatim);
    proof {
        lemma_sep_index_bound(p@.skip(start as int), verbatim);
        assert(p@.subrange(start as int, i as int) =~= head_part(p@.skip(start as int), verbatim));
    }
    if i < p.len() {
        assert(p@.skip(i + 1) =~= tail_part(p@.skip(start as int), verbatim));
        (i, i + 1)
    } else {
        assert(p@.skip(p.len() as int) =~= tail_part(p@.skip(start as int), verbatim));
        (i, i)
    }
}

/// A prefix as computed: the parsed parts and the number of characters the
/// prefix takes.
pub struct ParsedPrefix {
    pub kind: PrefixKind,
    pub first: Vec<char>,
    pub second: Vec<char>,
    pub drive: char,
    pub len: usize,
}

impl ParsedPrefix {
    pub open spec fn spec(&self) -> PathPrefix {
        PathPrefix { kind: self.kind, first: self.first@, second: self.second@, drive: self.drive }
    }
}

fn matched_char(p: &Vec<char>, i: usize) -> (c: char)
    requires
        i < p.len(),
    ensures
        c == matched(p@, i as int),
{
    if i < 8 && p[i] == '/' {
        '\\'
    } else {
        p[i]
    }
}

fn alpha(c: char) -> (b: bool)
    ensures
        b == is_ascii_alpha(c),
{
    ('a' <= c && c <= 'z') || ('A' <= c && c <= 'Z')
}

fn drive_from(p: &Vec<char>, start: usize) -> (b: bool)
    requires
        start <= p.len(),
    ensures
        b == drive_at(p@.skip(start as int)),
{
    p.len() - start >= 2 && alpha(p[start]) && p[start + 1] == ':'
}

/// The prefix of the path `p`, as `parse_prefix` describes it.
pub fn find_prefix(p: &Vec<char>) -> (r: Option<ParsedPrefix>)
    ensures
        match r {
            None => parse_prefix(p@) is None,
            Some(x) => parse_prefix(p@) == Some(x.spec()) && x.len == prefix_len(p@) && x.len
                <= p.len(),
        },
{
    let n: usize = p.len();
    if n >= 2 && matched_char(p, 0) == '\\' && matched_char(p, 1) == '\\' {
        if n >= 4 && p[0] == '\\' && p[1] == '\\' && p[2] == '?' && p[3] == '\\' {
            if n >= 8 && p[4] == 'U' && p[5] == 'N' && p[6] == 'C' && matched_char(p, 7) == '\\' {
                let (e1, s2): (usize, usize) = next_part(p, 8, true);
                let (e2, _s3): (usize, usize) = next_part(p, s2, true);
                let first = copy_range(p, 8, e1);
                let second = copy_range(p, s2, e2);
                let len: usize = if second.len() > 0 {
                    e2
                } else {
                    8 + first.len()
                };
                let r = ParsedPrefix {
                    kind: PrefixKind::VerbatimUnc,
                    first,
                    second,
                    drive: ' ',
                    len,
                };
                assert(parse_prefix(p@) == Some(r.spec()));
                Some(r)
            } else {
                let is_disk = drive_from(p, 4) && (n == 6 || sep_char(p[6], false));
                if is_disk {
                    let r = ParsedPrefix {
                        kind: PrefixKind::VerbatimDisk,
                        first: Vec::new(),
                        second: Vec::new(),
                        drive: p[4],
                        len: 6,
                    };
                    assert(r.first@ =~= Seq::<char>::empty());
                    assert(r.second@ =~= Seq::<char>::empty());
                    assert(parse_prefix(p@) == Some(r.spec()));
                    Some(r)
                } else {
                    let (e1, _s2): (usize, usize) = next_part(p, 4, true);
                    let first = copy_range(p, 4, e1);
                    let len: usize = 4 + first.len();
                    let r = ParsedPrefix {
                        kind: PrefixKind::Verbatim,
                        first,
                        second: Vec::new(),
                        drive: ' ',
                        len,
                    };
                    assert(r.second@ =~= Seq::<char>::empty());
                    assert(parse_prefix(p@) == Some(r.spec()));
                    Some(r)
                }
            }
        } else if n >= 4 && matched_char(p, 2) == '.' && matched_char(p, 3) == '\\' {
            let (e1, _s2): (usize, usize) = next_part(p, 4, false);
            let first = copy_range(p, 4, e1);
            let len: usize = 4 + first.len();
            let r = ParsedPrefix { kind: PrefixKind::DeviceNs, first, second: Vec::new(), drive: ' ', len };
            assert(r.second@ =~= Seq::<char>::empty());
            assert(parse_prefix(p@) == Some(r.spec()));
            Some(r)
        } else {
            let (e1, s2): (usize, usize) = next_part(p, 2, false);
            let (e2, _s3): (usize, usize) = next_part(p, s2, false);
            if e1 > 2 && e2 > s2 {
                let first = copy_range(p, 2, e1);
                let second = copy_range(p, s2, e2);
                let r = ParsedPrefix { kind: PrefixKind::Unc, first, second, drive: ' ', len: e2 };
                assert(parse_prefix(p@) == Some(r.spec()));
                Some(r)
            } else {
                assert(parse_prefix(p@) is None);
                None
            }
        }
    } else if drive_from(p, 0) {
        assert(p@.skip(0) =~= p@);
        let r = ParsedPrefix {
            kind: PrefixKind::Disk,
            first: Vec::new(),
            second: Vec::new(),
            drive: p[0],
            len: 2,
        };
        assert(r.first@ =~= Seq::<char>::empty());
        assert(r.second@ =~= Seq::<char>::empty());
        assert(parse_prefix(p@) == Some(r.spec()));
        Some(r)
    } else {
        assert(p@.skip(0) =~= p@);
        None
    }
}

/// The pieces of `p` from `start` between separators, as `split_on` gives them.
fn split_from(p: &Vec<char>, start: usize, verbatim: bool) -> (r: Vec<Vec<char>>)
    requires
        start <= p.len(),
    ensures
        parts(r@) == split_on(p@.skip(start as int), verbatim),
{
    let mut r: Vec<Vec<char>> = Vec::new();
    let mut pos: usize = start;
    loop
        invariant_except_break
            start <= pos <= p.len(),
            parts(r@) + split_on(p@.skip(pos as int), verbatim) == split_on(
                p@.skip(start as int),
                verbatim,
            ),
        ensures
            parts(r@) == split_on(p@.skip(start as int), verbatim),
        decreases p.len() - pos,
    {
        let i: usize = find_sep(p, pos, verbatim);
        let piece = copy_range(p, pos, i);
        let ghost s = p@.skip(pos as int);
        let ghost before = parts(r@);
        proof {
            lemma_sep_index_bound(s, verbatim);
            assert(piece@ =~= s.take(sep_index(s, verbatim) as int));
        }
        r.push(piece);
        assert(parts(r@) =~= before.push(piece@));
        if i >= p.len() {
            assert(piece@ =~= s);
            assert(parts(r@) =~= before + split_on(s, verbatim));
            break;
        }
        assert(s.skip(sep_index(s, verbatim) as int + 1) =~= p@.skip(i + 1));
        assert(parts(r@) + split_on(p@.skip(i + 1), verbatim) =~= before + split_on(
            s,
            verbatim,
        ));
        pos = i + 1;
    }
    r
}

fn is_normal_piece(x: &Vec<char>) -> (b: bool)
    ensures
        b == is_normal(x@),
{
    if x.len() == 0 {
        false
    } else if x.len() == 1 && x[0] == '.' {
        assert(x@ =~= seq!['.']);
        false
    } else if x.len() == 2 && x[0] == '.' && x[1] == '.' {
        assert(x@ =~= seq!['.', '.']);
        false
    } else {
        assert(x@.len() == 1 ==> x@ != seq!['.']) by {
            if x@.len() == 1 {
                assert(x@[0] != seq!['.'][0]);
            }
        }
        assert(x@.len() == 2 ==> x@ != seq!['.', '.']) by {
            if x@.len() == 2 {
                assert(x@[0] != '.' || x@[1] != '.');
                assert(seq!['.', '.'][0] == '.' && seq!['.', '.'][1] == '.');
            }
        }
        true
    }
}

/// The pieces among `pieces` that name files or folders.
fn keep_normal(pieces: &Vec<Vec<char>>) -> (r: Vec<Vec<char>>)
    ensures
        parts(r@) == normal_parts(parts(pieces@)),
{
    let mut r: Vec<Vec<char>> = Vec::new();
    for i in 0..pieces.len()
        invariant
            parts(r@) == normal_parts(parts(pieces@).take(i as int)),
    {
        let ghost before = parts(r@);
        assert(parts(pieces@).take(i + 1).drop_last() =~= parts(pieces@).take(i as int));
        assert(parts(pieces@).take(i + 1).last() == pieces@[i as int]@);
        if is_normal_piece(&pieces[i]) {
            r.push(copy_chars(&pieces[i]));
            assert(parts(r@) =~= before.push(pieces@[i as int]@));
        }
    }
    assert(parts(pieces@).take(pieces.len() as int) =~= parts(pieces@));
    r
}

fn is_verbatim_kind(k: PrefixKind) -> (b: bool)
    ensures
        b == (k == PrefixKind::Verbatim || k == PrefixKind::VerbatimUnc || k
            == PrefixKind::VerbatimDisk),
{
    match k {
        PrefixKind::Verbatim | PrefixKind::VerbatimUnc | PrefixKind::VerbatimDisk => true,
        _ => false,
    }
}

/// Prefix length and verbatim flag of `p`.
fn prefix_info(p: &Vec<char>) -> (r: (usize, bool))
    ensures
        r.0 == prefix_len(p@),
        r.0 <= p.len(),
        r.1 == is_verbatim(p@),
{
    match find_prefix(p) {
        Some(x) => (x.len, is_verbatim_kind(x.kind)),
        None => (0, false),
    }
}

/// The named components of the path `p`, after its prefix.
pub fn normal_components(p: &Vec<char>) -> (r: Vec<Vec<char>>)
    ensures
        parts(r@) == normals(p@),
{
    let (len, verbatim): (usize, bool) = prefix_info(p);
    let start: usize = if verbatim && len < p.len() && p[len] == '/' {
        len + 1
    } else {
        len
    };
    assert(p@.skip(start as int) =~= component_text(p@));
    let pieces = split_from(p, start, verbatim);
    keep_normal(&pieces)
}

/// The pieces that `mirror_path` pushes for the source path `src`.
pub fn mirror_pieces(src: &Vec<char>) -> (r: Vec<Vec<char>>)
    ensures
        parts(r@) == mirror_parts(src@),
{
    let mut r: Vec<Vec<char>> = Vec::new();
    match find_prefix(src) {
        Some(x) => {
            match x.kind {
                PrefixKind::Disk | PrefixKind::VerbatimDisk => {
                    let mut d: Vec<char> = Vec::new();
                    d.push(ascii_lower(x.drive));
                    r.push(d);
                    assert(parts(r@) =~= seq![seq![to_lower(x.drive)]]);
                },
                PrefixKind::Unc | PrefixKind::VerbatimUnc => {
                    let ParsedPrefix { first, second, .. } = x;
                    r.push(first);
                    r.push(second);
                    assert(parts(r@) =~= prefix_parts(parse_prefix(src@)));
                },
                _ => {
                    assert(parts(r@) =~= prefix_parts(parse_prefix(src@)));
                },
            }
        },
        None => {
            assert(parts(r@) =~= prefix_parts(parse_prefix(src@)));
        },
    }
    let ghost head = parts(r@);
    let mut rest = normal_components(src);
    r.append(&mut rest);
    assert(parts(r@) =~= head + normals(src@));
    r
}

/// A component of a verbatim path, as computed.
pub enum PathItem {
    Root,
    Cur,
    Parent,
    Named(Vec<char>),
}

impl PathItem {
    pub open spec fn spec(&self) -> Item {
        match self {
            PathItem::Root => Item::Root,
            PathItem::Cur => Item::Cur,
            PathItem::Parent => Item::Parent,
            PathItem::Named(t) => Item::Named(t@),
        }
    }
}

pub open spec fn items(v: Seq<PathItem>) -> Seq<Item> {
    v.map_values(|x: PathItem| x.spec())
}

fn item_from(x: &Vec<char>, verbatim: bool) -> (r: Option<PathItem>)
    ensures
        match r {
            None => item_of(x@, verbatim) is None,
            Some(it) => item_of(x@, verbatim) == Some(it.spec()),
        },
{
    if x.len() == 0 {
        None
    } else if x.len() == 1 && x[0] == '.' {
        assert(x@ =~= seq!['.']);
        if verbatim {
            Some(PathItem::Cur)
        } else {
            None
        }
    } else if x.len() == 2 && x[0] == '.' && x[1] == '.' {
        assert(x@ =~= seq!['.', '.']);
        assert(x@ != seq!['.']);
        Some(PathItem::Parent)
    } else {
        assert(x@.len() == 1 ==> x@ != seq!['.']) by {
            if x@.len() == 1 {
                assert(x@[0] != seq!['.'][0]);
            }
        }
        assert(x@.len() == 2 ==> x@ != seq!['.', '.']) by {
            if x@.len() == 2 {
                assert(x@[0] != '.' || x@[1] != '.');
                assert(seq!['.', '.'][0] == '.' && seq!['.', '.'][1] == '.');
            }
        }
        Some(PathItem::Named(copy_chars(x)))
    }
}

fn items_from(pieces: &Vec<Vec<char>>, verbatim: bool) -> (r: Vec<PathItem>)
    ensures
        items(r@) == items_of(parts(pieces@), verbatim),
{
    let mut r: Vec<PathItem> = Vec::new();
    for i in 0..pieces.len()
        invariant
            items(r@) == items_of(parts(pieces@).take(i as int), verbatim),
    {
        let ghost before = items(r@);
        assert(parts(pieces@).take(i + 1).drop_last() =~= parts(pieces@).take(i as int));
        assert(parts(pieces@).take(i + 1).last() == pieces@[i as int]@);
        match item_from(&pieces[i], verbatim) {
            Some(it) => {
                r.push(it);
                assert(items(r@) =~= before.push(r@[r@.len() - 1].spec()));
            },
            None => {},
        }
    }
    assert(parts(pieces@).take(pieces.len() as int) =~= parts(pieces@));
    r
}

fn copy_item(it: &PathItem) -> (r: PathItem)
    ensures
        r.spec() == it.spec(),
{
    match it {
        PathItem::Root => PathItem::Root,
        PathItem::Cur => PathItem::Cur,
        PathItem::Parent => PathItem::Parent,
        PathItem::Named(t) => PathItem::Named(copy_chars(t)),
    }
}

fn apply_all(buf: Vec<PathItem>, its: &Vec<PathItem>) -> (r: Vec<PathItem>)
    ensures
        items(r@) == apply_items(items(buf@), items(its@)),
{
    let mut buf = buf;
    let ghost start = items(buf@);
    for i in 0..its.len()
        invariant
            items(buf@) == apply_items(start, items(its@).take(i as int)),
    {
        let ghost before = items(buf@);
        assert(items(its@).take(i + 1).drop_last() =~= items(its@).take(i as int));
        assert(items(its@).take(i + 1).last() == its@[i as int].spec());
        match &its[i] {
            PathItem::Root => {
                let mut fresh: Vec<PathItem> = Vec::new();
                fresh.push(PathItem::Root);
                buf = fresh;
                assert(items(buf@) =~= seq![Item::Root]);
            },
            PathItem::Cur => {},
            PathItem::Parent => {
                if buf.len() > 0 {
                    let is_named = match &buf[buf.len() - 1] {
                        PathItem::Named(_) => true,
                        _ => false,
                    };
                    if is_named {
                        buf.pop();
                        assert(items(buf@) =~= before.drop_last());
                    }
                }
            },
            PathItem::Named(t) => {
                buf.push(PathItem::Named(copy_chars(t)));
                assert(items(buf@) =~= before.push(Item::Named(t@)));
            },
        }
    }
    assert(items(its@).take(its.len() as int) =~= items(its@));
    buf
}

fn item_chars(out: &mut Vec<char>, it: &PathItem)
    ensures
        final(out)@ == old(out)@ + item_text(it.spec()),
{
    match it {
        PathItem::Root => {
            out.push('\\');
            assert(out@ =~= old(out)@ + seq!['\\']);
        },
        PathItem::Cur => {
            out.push('.');
            assert(out@ =~= old(out)@ + seq!['.']);
        },
        PathItem::Parent => {
            out.push('.');
            out.push('.');
            assert(out@ =~= old(out)@ + seq!['.', '.']);
        },
        PathItem::Named(t) => {
            let ghost start = out@;
            for k in 0..t.len()
                invariant
                    out@ == start + t@.take(k as int),
            {
                out.push(t[k]);
                assert(t@.take(k + 1) =~= t@.take(k as int).push(t@[k as int]));
            }
            assert(t@.take(t.len() as int) =~= t@);
        },
    }
}

/// `out` followed by the rendering of `its`, a separator before the first one.
fn render_after(out: Vec<char>, its: &Vec<PathItem>) -> (r: Vec<char>)
    ensures
        r@ == out@ + render(items(its@), true),
{
    let mut out = out;
    let ghost start = out@;
    let mut need_sep = true;
    assert(items(its@).skip(0) =~= items(its@));
    for k in 0..its.len()
        invariant
            out@ + render(items(its@).skip(k as int), need_sep) == start + render(
                items(its@),
                true,
            ),
    {
        let ghost before = out@;
        let ghost ns = need_sep;
        let ghost rest = items(its@).skip(k as int);
        assert(rest[0] == its@[k as int].spec());
        assert(rest.drop_first() =~= items(its@).skip(k + 1));
        let is_root = match &its[k] {
            PathItem::Root => true,
            _ => false,
        };
        if need_sep && !is_root {
            out.push('\\');
        }
        item_chars(&mut out, &its[k]);
        need_sep = !is_root;
        assert(out@ + render(items(its@).skip(k + 1), need_sep) =~= before + render(rest, ns));
    }
    assert(items(its@).skip(its.len() as int) =~= Seq::<Item>::empty());
    out
}

fn verbatim_push_exec(out: &Vec<char>, piece: &Vec<char>) -> (r: Vec<char>)
    ensures
        r@ == verbatim_push(out@, piece@),
{
    let (plen, _): (usize, bool) = prefix_info(out);
    let root_out = plen < out.len() && sep_char(out[plen], false);
    let start: usize = if plen < out.len() && out[plen] == '/' {
        plen + 1
    } else {
        plen
    };
    assert(out@.skip(start as int) =~= after_root(body(out@)));
    let pieces_out = split_from(out, start, true);
    let mut buf: Vec<PathItem> = Vec::new();
    if root_out {
        buf.push(PathItem::Root);
    }
    let ghost head = items(buf@);
    let mut rest = items_from(&pieces_out, true);
    buf.append(&mut rest);
    assert(items(buf@) =~= verbatim_items(out@));
    let root_piece = piece.len() > 0 && sep_char(piece[0], false);
    assert(piece@.skip(0) =~= piece@);
    let pieces_piece = split_from(piece, 0, false);
    let mut its: Vec<PathItem> = Vec::new();
    if root_piece {
        its.push(PathItem::Root);
    }
    let mut rest2 = items_from(&pieces_piece, false);
    its.append(&mut rest2);
    assert(items(its@) =~= piece_items(piece@));
    let applied = apply_all(buf, &its);
    let prefix = copy_range(out, 0, plen);
    assert(prefix@ =~= out@.take(prefix_len(out@) as int));
    render_after(prefix, &applied)
}

fn needs_sep_exec(out: &Vec<char>) -> (b: bool)
    ensures
        b == needs_sep(out@),
{
    assert(out@.skip(0) =~= out@);
    out.len() > 0 && !sep_char(out[out.len() - 1], false) && !(out.len() == 2 && drive_from(out, 0))
}

fn concat_chars(a: &Vec<char>, b: &Vec<char>) -> (r: Vec<char>)
    ensures
        r@ == a@ + b@,
{
    let mut r = copy_chars(a);
    let mut t = copy_chars(b);
    r.append(&mut t);
    assert(r@ =~= a@ + b@);
    r
}

/// `out` after pushing `piece`, by the rules of `push`.
pub fn push_piece(out: &Vec<char>, piece: &Vec<char>) -> (r: Vec<char>)
    ensures
        r@ == push(out@, piece@),
{
    if find_prefix(piece).is_some() {
        return copy_chars(piece);
    }
    let (plen, verbatim): (usize, bool) = prefix_info(out);
    if verbatim && piece.len() > 0 {
        verbatim_push_exec(out, piece)
    } else if piece.len() > 0 && sep_char(piece[0], false) {
        let kept = copy_range(out, 0, plen);
        assert(kept@ =~= out@.take(prefix_len(out@) as int));
        concat_chars(&kept, piece)
    } else if needs_sep_exec(out) {
        let mut with_sep = copy_chars(out);
        with_sep.push('\\');
        concat_chars(&with_sep, piece)
    } else {
        concat_chars(out, piece)
    }
}

/// `dest` with each of `pieces` pushed in turn.
fn push_each(dest: Vec<char>, pieces: &Vec<Vec<char>>) -> (r: Vec<char>)
    ensures
        r@ == push_all(dest@, parts(pieces@)),
{
    let mut out = dest;
    let ghost start = out@;
    for i in 0..pieces.len()
        invariant
            out@ == push_all(start, parts(pieces@).take(i as int)),
    {
        assert(parts(pieces@).take(i + 1).drop_last() =~= parts(pieces@).take(i as int));
        assert(parts(pieces@).take(i + 1).last() == pieces@[i as int]@);
        out = push_piece(&out, &pieces[i]);
    }
    assert(parts(pieces@).take(pieces.len() as int) =~= parts(pieces@));
    out
}

/// Where the source folder `src` is mirrored under the destination `dest`:
/// the drive letter (lower case), or the server and share of a network path,
/// then every named component of `src`, each pushed onto `dest` by Windows
/// path rules. `C:\Users\ted` under `F:\b` is `F:\b\c\Users\ted`, and
/// `\\nas\share\x` is `F:\b\nas\share\x`.
pub fn mirror_path(dest: &str, src: &str) -> (r: String)
    ensures
        r@ == mirrored(dest@, src@),
{
    let d = chars_of(dest);
    let s = chars_of(src);
    let pieces = mirror_pieces(&s);
    let out = push_each(d, &pieces);
    string_of(&out)
}

/// `base` joined with `name` (`Path::join` on Windows): where an entry named
/// `name` inside the folder `base` is copied to.
pub fn join_path(base: &str, name: &str) -> (r: String)
    ensures
        r@ == push(base@, name@),
{
    let b = chars_of(base);
    let n = chars_of(name);
    let out = push_piece(&b, &n);
    string_of(&out)
}

/// The name of the last component of a path (`Path::file_name`): empty when
/// the path ends in `..`, is only a prefix or a root, or is empty.
pub open spec fn file_name_of(p: Seq<char>) -> Seq<char> {
    let comps = items_of(split_on(body(p), is_verbatim(p)), is_verbatim(p));
    if comps.len() > 0 && comps.last() is Named {
        item_text(comps.last())
    } else {
        Seq::empty()
    }
}

/// The file name shown for the file being copied.
pub fn file_name(path: &str) -> (r: String)
    ensures
        r@ == file_name_of(path@),
{
    let p = chars_of(path);
    let (plen, verbatim): (usize, bool) = prefix_info(&p);
    let pieces = split_from(&p, plen, verbatim);
    let comps = items_from(&pieces, verbatim);
    if comps.len() > 0 {
        match &comps[comps.len() - 1] {
            PathItem::Named(t) => {
                return string_of(t);
            },
            _ => {},
        }
    }
    String::new()
}

/// `dest` followed by each piece, with a `\` before a piece wherever the path
/// so far needs one.
pub open spec fn under(dest: Seq<char>, pieces: Seq<Seq<char>>) -> Seq<char>
    decreases pieces.len(),
{
    if pieces.len() == 0 {
        dest
    } else {
        let out = under(dest, pieces.drop_last());
        if needs_sep(out) {
            out.push('\\') + pieces.last()
        } else {
            out + pieces.last()
        }
    }
}

/// A piece with no separator and no drive: pushing it only appends it.
pub open spec fn plain_piece(x: Seq<char>) -> bool {
    x.len() > 0 && !drive_at(x) && forall|j: int| 0 <= j < x.len() ==> !is_sep(#[trigger] x[j])
}

pub proof fn lemma_verbatim_by_start(p: Seq<char>)
    ensures
        is_verbatim(p) <==> (p.len() >= 4 && p[0] == '\\' && p[1] == '\\' && p[2] == '?' && p[3]
            == '\\'),
{
}

pub proof fn lemma_plain_has_no_prefix(x: Seq<char>)
    requires
        plain_piece(x),
    ensures
        parse_prefix(x) is None,
        !is_sep(x[0]),
{
    assert(!is_sep(x[0]));
}

/// The three characters `\\?`: pushing onto them starts a verbatim path.
pub open spec fn verbatim_start() -> Seq<char> {
    seq!['\\', '\\', '?']
}

/// The inputs on which pushing plain pieces would turn the path into a
/// verbatim one: the destination `\\?` itself, or the destination `\\` whose
/// first piece is `?` when more pieces follow.
pub open spec fn becomes_verbatim(dest: Seq<char>, pieces: Seq<Seq<char>>) -> bool {
    ||| dest == verbatim_start() && pieces.len() > 0
    ||| dest == seq!['\\', '\\'] && pieces.len() >= 2 && pieces[0] == seq!['?']
}

proof fn lemma_under(dest: Seq<char>, pieces: Seq<Seq<char>>)
    requires
        !is_verbatim(dest),
        !becomes_verbatim(dest, pieces),
        forall|i: int| 0 <= i < pieces.len() ==> plain_piece(#[trigger] pieces[i]),
    ensures
        push_all(dest, pieces) == under(dest, pieces),
        !is_verbatim(under(dest, pieces)),
        under(dest, pieces) == verbatim_start() ==> pieces.len() == 0 || (pieces.len() == 1
            && dest == seq!['\\', '\\'] && pieces[0] == seq!['?']),
    decreases pieces.len(),
{
    if pieces.len() > 0 {
        let prev = pieces.drop_last();
        assert forall|i: int| 0 <= i < prev.len() implies plain_piece(#[trigger] prev[i]) by {
            assert(prev[i] == pieces[i]);
        }
        if prev.len() >= 2 {
            assert(prev[0] == pieces[0]);
        }
        lemma_under(dest, prev);
        let out = under(dest, prev);
        let x = pieces.last();
        assert(plain_piece(pieces[pieces.len() - 1]));
        lemma_plain_has_no_prefix(x);
        lemma_verbatim_by_start(out);
        if prev.len() == 1 && dest == seq!['\\', '\\'] && prev[0] == seq!['?'] {
            assert(pieces[0] == prev[0]);
        }
        assert(out != verbatim_start());
        let r = if needs_sep(out) {
            out.push('\\') + x
        } else {
            out + x
        };
        lemma_verbatim_by_start(r);
        assert(x[x.len() - 1] == r[r.len() - 1]);
        if r.len() >= 4 && r[0] == '\\' && r[1] == '\\' && r[2] == '?' && r[3] == '\\' {
            if out.len() >= 4 {
                assert(out[0] == r[0] && out[1] == r[1] && out[2] == r[2] && out[3] == r[3]);
            } else if needs_sep(out) {
                if out.len() == 3 {
                    assert(out =~= verbatim_start());
                } else if out.len() == 2 {
                    assert(r[2] == '\\');
                } else {
                    assert(r[3] == x[1]);
                }
            } else {
                assert(r[3] == x[3 - out.len()]);
            }
        }
        if r == verbatim_start() {
            assert(r[2] == '?');
            assert(r[r.len() - 1] == '?');
            if needs_sep(out) {
                assert(out.len() + 1 + x.len() == 3);
                assert(r[out.len() as int] == '\\');
                assert(out.len() == 1);
                assert(out[0] == '\\');
                assert(!needs_sep(out));
            } else {
                assert(x.len() == 1) by {
                    if x.len() >= 2 {
                        assert(r[1] == x[1 - out.len()] || out.len() >= 2);
                        assert(r[3 - x.len()] == x[0]);
                    }
                }
                assert(out =~= seq!['\\', '\\']);
                assert(x =~= seq!['?']);
                if prev.len() > 0 {
                    assert(out.len() >= 1 && !is_sep(out[out.len() - 1])) by {
                        lemma_under_nonempty_tail(dest, prev);
                    }
                }
                assert(prev.len() == 0);
                assert(pieces[0] == x);
            }
        }
    }
}

proof fn lemma_under_nonempty_tail(dest: Seq<char>, pieces: Seq<Seq<char>>)
    requires
        pieces.len() > 0,
        forall|i: int| 0 <= i < pieces.len() ==> plain_piece(#[trigger] pieces[i]),
    ensures
        under(dest, pieces).len() >= 1,
        !is_sep(under(dest, pieces).last()),
{
    let x = pieces.last();
    assert(plain_piece(pieces[pieces.len() - 1]));
    let out = under(dest, pieces.drop_last());
    let r = under(dest, pieces);
    assert(r[r.len() - 1] == x[x.len() - 1]);
}

/// The mirrored path keeps the destination and puts the source's pieces after
/// it, with a `\` wherever one is needed: `C:\Users\ted` under `F:\b` is
/// `F:\b\c\Users\ted`, under `F:\` it is `F:\c\Users\ted`. This holds for a
/// destination that is not a verbatim path when no piece of the source holds
/// a separator or starts with a drive, except where the pushes themselves
/// would form a verbatim path (`becomes_verbatim`).
pub proof fn lemma_mirror_under_dest(dest: Seq<char>, src: Seq<char>)
    requires
        !is_verbatim(dest),
        !becomes_verbatim(dest, mirror_parts(src)),
        forall|i: int| 0 <= i < mirror_parts(src).len() ==> plain_piece(#[trigger] mirror_parts(src)[i]),
    ensures
        mirrored(dest, src) == under(dest, mirror_parts(src)),
        mirrored(dest, src).take(dest.len() as int) == dest,
{
    lemma_under(dest, mirror_parts(src));
    lemma_under_extends(dest, mirror_parts(src));
}

pub(crate) proof fn lemma_under_extends(dest: Seq<char>, pieces: Seq<Seq<char>>)
    ensures
        under(dest, pieces).len() >= dest.len(),
        under(dest, pieces).take(dest.len() as int) == dest,
    decreases pieces.len(),
{
    if pieces.len() > 0 {
        lemma_under_extends(dest, pieces.drop_last());
        let out = under(dest, pieces.drop_last());
        let r = under(dest, pieces);
        assert(r.take(dest.len() as int) =~= out.take(dest.len() as int));
    } else {
        assert(dest.take(dest.len() as int) =~= dest);
    }
}

} // verus!
