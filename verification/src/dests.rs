//! The lists the window shows: source folders and backup destinations, each
//! destination with whether its drive is connected and how many files are
//! pending for it; and the decisions taken on them.
use vstd::prelude::*;
use crate::config::strings;

verus! {

/// A backup destination as the window lists it. `pending` is the number of
/// new or changed files found for it, or -1 when not known.
#[derive(Clone, Debug)]
pub struct Dest {
    pub path: String,
    pub connected: bool,
    pub pending: i32,
}

/// What the window shows over all destinations: whether any is connected
/// (the "Back up now" button turns green) and the pending files over the
/// connected ones.
#[derive(Clone, Copy, Debug, PartialEq, Eq, Structural)]
pub struct Totals {
    pub any_connected: bool,
    pub pending_total: i32,
}

/// Pending files over the connected destinations; an unknown count (-1)
/// adds nothing.
pub open spec fn pending_sum(ds: Seq<Dest>) -> int
    decreases ds.len(),
{
    if ds.len() == 0 {
        0
    } else {
        let d = ds.last();
        pending_sum(ds.drop_last()) + if d.connected && d.pending > 0 {
            d.pending as int
        } else {
            0
        }
    }
}

pub open spec fn any_connected(ds: Seq<Dest>) -> bool {
    exists|i: int| 0 <= i < ds.len() && (#[trigger] ds[i]).connected
}

pub proof fn lemma_pending_sum_prefix(ds: Seq<Dest>, i: int)
    requires
        0 <= i <= ds.len(),
    ensures
        0 <= pending_sum(ds.take(i)) <= pending_sum(ds),
    decreases ds.len() - i,
{
    if i < ds.len() {
        lemma_pending_sum_prefix(ds, i + 1);
        assert(ds.take(i + 1).drop_last() =~= ds.take(i));
        lemma_pending_sum_nonneg(ds.take(i));
    } else {
        assert(ds.take(i) =~= ds);
        lemma_pending_sum_nonneg(ds);
    }
}

pub proof fn lemma_pending_sum_nonneg(ds: Seq<Dest>)
    ensures
        pending_sum(ds) >= 0,
    decreases ds.len(),
{
    if ds.len() > 0 {
        lemma_pending_sum_nonneg(ds.drop_last());
    }
}

/// The totals for `dests`.
pub fn update_total(dests: &Vec<Dest>) -> (t: Totals)
    requires
        pending_sum(dests@) <= i32::MAX,
    ensures
        t.any_connected == any_connected(dests@),
        t.any_connected <==> exists|i: int| 0 <= i < dests.len() && (#[trigger] dests@[i]).connected,
        t.pending_total == pending_sum(dests@),
{
    let mut any = false;
    let mut sum: i32 = 0;
    for i in 0..dests.len()
        invariant
            pending_sum(dests@) <= i32::MAX,
            any == exists|k: int| 0 <= k < i && (#[trigger] dests@[k]).connected,
            sum == pending_sum(dests@.take(i as int)),
    {
        proof {
            lemma_pending_sum_prefix(dests@, i + 1);
            assert(dests@.take(i + 1).drop_last() =~= dests@.take(i as int));
        }
        if dests[i].connected {
            any = true;
            if dests[i].pending > 0 {
                sum = sum + dests[i].pending;
            }
        }
    }
    assert(dests@.take(dests.len() as int) =~= dests@);
    Totals { any_connected: any, pending_total: sum }
}

/// A destination after its drive was found present (`now`) or not: when that
/// changed, the flag follows and the pending count becomes unknown.
pub open spec fn refreshed(d: Dest, now: bool) -> Dest {
    if now != d.connected {
        Dest { path: d.path, connected: now, pending: -1i32 }
    } else {
        d
    }
}

pub open spec fn refreshed_all(ds: Seq<Dest>, present: Seq<bool>) -> Seq<Dest> {
    Seq::new(ds.len(), |i: int| refreshed(ds[i], present[i]))
}

/// A drive was just plugged in: some destination now present was not
/// connected.
pub open spec fn plugged_in(ds: Seq<Dest>, present: Seq<bool>) -> bool {
    exists|i: int| 0 <= i < ds.len() && present[i] && !(#[trigger] ds[i]).connected
}

/// Takes the presence of each destination's folder (`present[i]` for
/// `dests[i]`): updates the connected flags, marks the pending count of each
/// destination that changed as unknown, and returns whether a drive was just
/// plugged in, with the totals of the updated list.
pub fn refresh_connected(dests: &mut Vec<Dest>, present: &Vec<bool>) -> (r: (bool, Totals))
    requires
        present.len() == old(dests).len(),
        pending_sum(refreshed_all(old(dests)@, present@)) <= i32::MAX,
    ensures
        final(dests)@ == refreshed_all(old(dests)@, present@),
        r.0 == plugged_in(old(dests)@, present@),
        r.1.any_connected == any_connected(final(dests)@),
        r.1.any_connected <==> exists|i: int|
            0 <= i < present.len() && #[trigger] present@[i],
        r.1.pending_total == pending_sum(final(dests)@),
{
    let ghost start = dests@;
    let mut plugged = false;
    let n: usize = dests.len();
    for i in 0..n
        invariant
            n == start.len(),
            present.len() == start.len(),
            dests@.len() == start.len(),
            forall|k: int| 0 <= k < i ==> #[trigger] dests@[k] == refreshed(start[k], present@[k]),
            forall|k: int| i <= k < start.len() ==> #[trigger] dests@[k] == start[k],
            plugged == exists|k: int| 0 <= k < i && present@[k] && !(#[trigger] start[k]).connected,
    {
        let now = present[i];
        if now != dests[i].connected {
            plugged = plugged || now;
            let path = dests[i].path.clone();
            dests.set(i, Dest { path, connected: now, pending: -1 });
        }
    }
    assert(dests@ =~= refreshed_all(start, present@));
    let t = update_total(dests);
    proof {
        assert forall|i: int| 0 <= i < n implies (#[trigger] dests@[i]).connected == present@[i] by {
            assert(dests@[i] == refreshed(start[i], present@[i]));
        }
        if t.any_connected {
            let i = choose|i: int| 0 <= i < dests.len() && (#[trigger] dests@[i]).connected;
            assert(present@[i]);
        }
        if exists|i: int| 0 <= i < present.len() && #[trigger] present@[i] {
            let i = choose|i: int| 0 <= i < present.len() && #[trigger] present@[i];
            assert(dests@[i].connected);
        }
    }
    (plugged, t)
}

/// The paths of the connected destinations, in order.
pub open spec fn connected_paths(ds: Seq<Dest>) -> Seq<Seq<char>>
    decreases ds.len(),
{
    if ds.len() == 0 {
        Seq::empty()
    } else if ds.last().connected {
        connected_paths(ds.drop_last()).push(ds.last().path@)
    } else {
        connected_paths(ds.drop_last())
    }
}

/// The paths of the connected destinations: those a backup writes to.
pub fn connected_dests(dests: &Vec<Dest>) -> (r: Vec<String>)
    ensures
        strings(r@) == connected_paths(dests@),
        forall|i: int|
            0 <= i < dests.len() && (#[trigger] dests@[i]).connected ==> strings(r@).contains(
                dests@[i].path@,
            ),
        exists|idx: Seq<int>|
            connected_indices(dests@, idx) && #[trigger] idx.len() == r.len() && forall|j: int|
                0 <= j < idx.len() ==> strings(r@)[j] == dests@[#[trigger] idx[j]].path@,
{
    let mut r: Vec<String> = Vec::new();
    for i in 0..dests.len()
        invariant
            strings(r@) == connected_paths(dests@.take(i as int)),
    {
        let ghost before = strings(r@);
        assert(dests@.take(i + 1).drop_last() =~= dests@.take(i as int));
        assert(dests@.take(i + 1).last() == dests@[i as int]);
        if dests[i].connected {
            r.push(dests[i].path.clone());
            assert(strings(r@) =~= before.push(dests@[i as int].path@));
        }
    }
    assert(dests@.take(dests.len() as int) =~= dests@);
    proof {
        lemma_connected_paths_filter(dests@);
    }
    r
}

/// Whether to count new and changed files now, and for which destinations:
/// not while a backup runs (it checks again when it ends), and not when no
/// destination is connected.
pub fn check(running: bool, dests: &Vec<Dest>) -> (r: Option<Vec<String>>)
    ensures
        match r {
            None => running || connected_paths(dests@).len() == 0,
            Some(v) => !running && connected_paths(dests@).len() > 0 && strings(v@)
                == connected_paths(dests@),
        },
{
    if running {
        return None;
    }
    let v = connected_dests(dests);
    if v.len() == 0 {
        None
    } else {
        Some(v)
    }
}

/// Index of the first destination whose path is `p`, or the length of `ds`.
pub open spec fn first_with_path(ds: Seq<Dest>, p: Seq<char>) -> nat
    decreases ds.len(),
{
    if ds.len() == 0 {
        0
    } else if ds[0].path@ == p {
        0
    } else {
        1 + first_with_path(ds.drop_first(), p)
    }
}

proof fn lemma_first_with_path(ds: Seq<Dest>, p: Seq<char>, i: int)
    requires
        0 <= i <= ds.len(),
        forall|k: int| 0 <= k < i ==> (#[trigger] ds[k]).path@ != p,
        i == ds.len() || ds[i].path@ == p,
    ensures
        first_with_path(ds, p) == i,
    decreases i,
{
    if i > 0 {
        let rest = ds.drop_first();
        assert forall|k: int| 0 <= k < i - 1 implies (#[trigger] rest[k]).path@ != p by {
            assert(rest[k] == ds[k + 1]);
        }
        lemma_first_with_path(rest, p, i - 1);
    }
}

/// Stores the count of a finished check, `count` new or changed files, on
/// the first destination whose path is `path` (as the `i32` that `as` gives);
/// nothing changes when no destination has that path.
pub fn record_pending(dests: &mut Vec<Dest>, path: &String, count: u64)
    ensures
        final(dests)@.len() == old(dests)@.len(),
        forall|k: int|
            0 <= k < old(dests)@.len() ==> #[trigger] final(dests)@[k] == if k == first_with_path(
                old(dests)@,
                path@,
            ) {
                Dest { path: old(dests)@[k].path, connected: old(dests)@[k].connected, pending: count as i32 }
            } else {
                old(dests)@[k]
            },
{
    let mut i: usize = 0;
    while i < dests.len() && !(dests[i].path == *path)
        invariant
            0 <= i <= dests.len(),
            forall|k: int| 0 <= k < i ==> (#[trigger] dests@[k]).path@ != path@,
        decreases dests.len() - i,
    {
        i = i + 1;
    }
    proof {
        lemma_first_with_path(dests@, path@, i as int);
    }
    if i < dests.len() {
        let p = dests[i].path.clone();
        let c = dests[i].connected;
        dests.set(i, Dest { path: p, connected: c, pending: count as i32 });
    }
}

/// The source folders as the copy reads them.
pub fn source_paths(sources: &Vec<String>) -> (r: Vec<String>)
    ensures
        strings(r@) == strings(sources@),
{
    let mut r: Vec<String> = Vec::new();
    for i in 0..sources.len()
        invariant
            r.len() == i,
            forall|k: int| 0 <= k < i ==> #[trigger] r@[k]@ == sources@[k]@,
    {
        r.push(sources[i].clone());
    }
    assert(strings(r@) =~= strings(sources@));
    r
}

/// `list` with `x` added at the end, unless it already holds it.
pub open spec fn with_added(list: Seq<Seq<char>>, x: Seq<char>) -> Seq<Seq<char>> {
    if list.contains(x) {
        list
    } else {
        list.push(x)
    }
}

pub open spec fn distinct(list: Seq<Seq<char>>) -> bool {
    forall|i: int, j: int| 0 <= i < j < list.len() ==> list[i] != list[j]
}

fn holds(list: &Vec<String>, x: &String) -> (b: bool)
    ensures
        b == strings(list@).contains(x@),
{
    for i in 0..list.len()
        invariant
            forall|k: int| 0 <= k < i ==> list@[k]@ != x@,
    {
        if list[i] == *x {
            assert(strings(list@)[i as int] == x@);
            return true;
        }
    }
    assert(!strings(list@).contains(x@)) by {
        if strings(list@).contains(x@) {
            let k = choose|k: int| 0 <= k < strings(list@).len() && strings(list@)[k] == x@;
            assert(list@[k]@ == x@);
        }
    }
    false
}

/// Adds the source folder `dir` picked by the user, unless the list already
/// has it. Returns whether it was added.
pub fn add_source(sources: &mut Vec<String>, dir: String) -> (added: bool)
    ensures
        added == !strings(old(sources)@).contains(dir@),
        strings(final(sources)@) == with_added(strings(old(sources)@), dir@),
{
    if holds(sources, &dir) {
        false
    } else {
        let ghost before = strings(sources@);
        let ghost d = dir@;
        sources.push(dir);
        assert(strings(sources@) =~= before.push(d));
        true
    }
}

/// Removes the source at index `i` of the list, unless a backup is running or
/// there is no such index. Returns whether it was removed.
pub fn remove_source(running: bool, sources: &mut Vec<String>, i: i32) -> (removed: bool)
    ensures
        removed == (!running && 0 <= i < old(sources)@.len()),
        strings(final(sources)@) == if removed {
            strings(old(sources)@).remove(i as int)
        } else {
            strings(old(sources)@)
        },
{
    if running || i < 0 || i as usize >= sources.len() {
        return false;
    }
    let ghost before = strings(sources@);
    sources.remove(i as usize);
    assert(strings(sources@) =~= before.remove(i as int));
    true
}

/// The destination paths of the list.
pub open spec fn dest_paths(ds: Seq<Dest>) -> Seq<Seq<char>> {
    ds.map_values(|d: Dest| d.path@)
}

/// Adds the destination `path` picked by the user, not connected and with an
/// unknown pending count, unless the list already has that path. Returns
/// whether it was added.
pub fn add_dest(dests: &mut Vec<Dest>, path: String) -> (added: bool)
    ensures
        added == !dest_paths(old(dests)@).contains(path@),
        final(dests)@ == if added {
            old(dests)@.push(Dest { path: path, connected: false, pending: -1i32 })
        } else {
            old(dests)@
        },
{
    for i in 0..dests.len()
        invariant
            forall|k: int| 0 <= k < i ==> dests@[k].path@ != path@,
    {
        if dests[i].path == path {
            assert(dest_paths(dests@)[i as int] == path@);
            return false;
        }
    }
    assert(!dest_paths(dests@).contains(path@)) by {
        if dest_paths(dests@).contains(path@) {
            let k = choose|k: int| 0 <= k < dest_paths(dests@).len() && dest_paths(dests@)[k] == path@;
            assert(dests@[k].path@ == path@);
        }
    }
    dests.push(Dest { path, connected: false, pending: -1 });
    true
}

/// Removes the destination at index `i`, unless a backup is running or there
/// is no such index. Returns whether it was removed.
pub fn remove_dest(running: bool, dests: &mut Vec<Dest>, i: i32) -> (removed: bool)
    ensures
        removed == (!running && 0 <= i < old(dests)@.len()),
        final(dests)@ == if removed {
            old(dests)@.remove(i as int)
        } else {
            old(dests)@
        },
{
    if running || i < 0 || i as usize >= dests.len() {
        return false;
    }
    dests.remove(i as usize);
    true
}

/// Adding never creates a duplicate: a list without duplicates keeps none.
pub proof fn lemma_add_keeps_distinct(list: Seq<Seq<char>>, x: Seq<char>)
    requires
        distinct(list),
    ensures
        distinct(with_added(list, x)),
        with_added(list, x).contains(x),
{
    if !list.contains(x) {
        let l2 = list.push(x);
        assert forall|i: int, j: int| 0 <= i < j < l2.len() implies l2[i] != l2[j] by {
            if j == list.len() {
                assert(l2[i] == list[i]);
            }
        }
        assert(l2[list.len() as int] == x);
    }
}

/// Refreshing twice with the same drives: the second refresh reports no newly
/// plugged drive and leaves every row as it is, and so the totals. A row whose
/// flag already matches its drive is never touched, so a pending count known
/// for it (one recorded after the first refresh too) is kept, not reset to -1.
pub proof fn lemma_refresh_idempotent(ds: Seq<Dest>, present: Seq<bool>)
    requires
        present.len() == ds.len(),
    ensures
        refreshed_all(refreshed_all(ds, present), present) == refreshed_all(ds, present),
        !plugged_in(refreshed_all(ds, present), present),
        forall|i: int|
            0 <= i < ds.len() && (#[trigger] ds[i]).connected == present[i] ==> refreshed_all(
                ds,
                present,
            )[i] == ds[i],
        pending_sum(refreshed_all(refreshed_all(ds, present), present)) == pending_sum(
            refreshed_all(ds, present),
        ),
{
    let once = refreshed_all(ds, present);
    assert(refreshed_all(once, present) =~= once);
    if plugged_in(once, present) {
        let i = choose|i: int| 0 <= i < once.len() && present[i] && !(#[trigger] once[i]).connected;
        assert(once[i] == refreshed(ds[i], present[i]));
    }
}

/// The "Back up now" button lights exactly when some destination is
/// connected, whatever its pending count (unknown, zero or more).
pub proof fn lemma_any_connected(ds: Seq<Dest>)
    ensures
        any_connected(ds) <==> exists|i: int| 0 <= i < ds.len() && (#[trigger] ds[i]).connected,
{
}

/// The pending total counts every connected destination's known count and
/// nothing else: each such count is part of it, and it is zero when no
/// connected destination has pending files.
pub proof fn lemma_pending_sum_parts(ds: Seq<Dest>)
    ensures
        forall|i: int|
            0 <= i < ds.len() && (#[trigger] ds[i]).connected && ds[i].pending > 0
                ==> pending_sum(ds) >= ds[i].pending,
        (forall|i: int| 0 <= i < ds.len() ==> !((#[trigger] ds[i]).connected && ds[i].pending > 0))
            ==> pending_sum(ds) == 0,
    decreases ds.len(),
{
    if ds.len() > 0 {
        let prev = ds.drop_last();
        lemma_pending_sum_parts(prev);
        lemma_pending_sum_nonneg(prev);
        assert forall|i: int|
            0 <= i < ds.len() && (#[trigger] ds[i]).connected && ds[i].pending > 0
                implies pending_sum(ds) >= ds[i].pending by {
            if i < prev.len() {
                assert(prev[i] == ds[i]);
            }
        }
        if forall|i: int| 0 <= i < ds.len() ==> !((#[trigger] ds[i]).connected && ds[i].pending > 0) {
            assert forall|i: int| 0 <= i < prev.len() implies !((#[trigger] prev[i]).connected
                && prev[i].pending > 0) by {
                assert(prev[i] == ds[i]);
            }
            assert(!(ds[ds.len() - 1].connected && ds[ds.len() - 1].pending > 0));
        }
    }
}

/// `idx` lists, in increasing order, exactly the indices of the connected
/// destinations of `ds`.
pub open spec fn connected_indices(ds: Seq<Dest>, idx: Seq<int>) -> bool {
    &&& forall|j: int|
        0 <= j < idx.len() ==> 0 <= #[trigger] idx[j] < ds.len() && ds[idx[j]].connected
    &&& forall|j: int, k: int| 0 <= j < k < idx.len() ==> #[trigger] idx[j] < #[trigger] idx[k]
    &&& forall|i: int|
        0 <= i < ds.len() && (#[trigger] ds[i]).connected ==> exists|j: int|
            0 <= j < idx.len() && #[trigger] idx[j] == i
}

spec fn connected_index_list(ds: Seq<Dest>) -> Seq<int>
    decreases ds.len(),
{
    if ds.len() == 0 {
        Seq::empty()
    } else if ds.last().connected {
        connected_index_list(ds.drop_last()).push(ds.len() - 1)
    } else {
        connected_index_list(ds.drop_last())
    }
}

proof fn lemma_connected_index_list(ds: Seq<Dest>)
    ensures
        connected_indices(ds, connected_index_list(ds)),
        connected_paths(ds).len() == connected_index_list(ds).len(),
        forall|j: int|
            0 <= j < connected_paths(ds).len() ==> #[trigger] connected_paths(ds)[j]
                == ds[connected_index_list(ds)[j]].path@,
    decreases ds.len(),
{
    if ds.len() > 0 {
        let prev = ds.drop_last();
        lemma_connected_index_list(prev);
        let pi = connected_index_list(prev);
        let idx = connected_index_list(ds);
        let n = ds.len() - 1;
        assert forall|j: int| 0 <= j < pi.len() implies #[trigger] pi[j] < n by {}
        assert forall|i: int| 0 <= i < prev.len() implies #[trigger] ds[i] == prev[i] by {}
        assert forall|j: int| 0 <= j < idx.len() implies 0 <= #[trigger] idx[j] < ds.len()
            && ds[idx[j]].connected by {
            if j < pi.len() {
                assert(idx[j] == pi[j]);
                assert(ds[pi[j]] == prev[pi[j]]);
            }
        }
        assert forall|i: int| 0 <= i < ds.len() && (#[trigger] ds[i]).connected implies exists|j: int|
            0 <= j < idx.len() && #[trigger] idx[j] == i by {
            if i < n {
                assert(prev[i].connected);
                let j = choose|j: int| 0 <= j < pi.len() && #[trigger] pi[j] == i;
                assert(idx[j] == pi[j]);
            } else {
                assert(idx[idx.len() - 1] == n);
            }
        }
        let cp = connected_paths(ds);
        assert forall|j: int| 0 <= j < cp.len() implies #[trigger] cp[j] == ds[idx[j]].path@ by {
            if j < pi.len() {
                assert(idx[j] == pi[j]);
                assert(ds[pi[j]] == prev[pi[j]]);
            }
        }
    }
}

/// The destinations a backup writes to are a filter of the list: the path of
/// every connected destination, in list order, and nothing else.
pub proof fn lemma_connected_paths_filter(ds: Seq<Dest>)
    ensures
        exists|idx: Seq<int>|
            connected_indices(ds, idx) && #[trigger] idx.len() == connected_paths(ds).len()
                && forall|j: int|
                0 <= j < idx.len() ==> connected_paths(ds)[j] == ds[#[trigger] idx[j]].path@,
        forall|i: int|
            0 <= i < ds.len() && (#[trigger] ds[i]).connected ==> connected_paths(ds).contains(
                ds[i].path@,
            ),
{
    lemma_connected_index_list(ds);
    let idx = connected_index_list(ds);
    assert forall|i: int| 0 <= i < ds.len() && (#[trigger] ds[i]).connected implies connected_paths(
        ds,
    ).contains(ds[i].path@) by {
        let j = choose|j: int| 0 <= j < idx.len() && #[trigger] idx[j] == i;
        assert(connected_paths(ds)[j] == ds[i].path@);
    }
}

/// The pending total of two lists put together is the sum of their totals:
/// the order of the destinations does not matter to it.
pub proof fn lemma_pending_sum_concat(a: Seq<Dest>, b: Seq<Dest>)
    ensures
        pending_sum(a + b) == pending_sum(a) + pending_sum(b),
    decreases b.len(),
{
    if b.len() == 0 {
        assert(a + b =~= a);
    } else {
        lemma_pending_sum_concat(a, b.drop_last());
        assert((a + b).drop_last() =~= a + b.drop_last());
        assert((a + b).last() == b.last());
    }
}

/// A refresh sets each destination's flag to whether its drive is present,
/// keeps its path, keeps the whole row when the flag did not change, and
/// marks the count unknown when it did.
pub proof fn lemma_refreshed_rows(ds: Seq<Dest>, present: Seq<bool>)
    requires
        present.len() == ds.len(),
    ensures
        refreshed_all(ds, present).len() == ds.len(),
        forall|i: int|
            0 <= i < ds.len() ==> {
                let r = #[trigger] refreshed_all(ds, present)[i];
                &&& r.connected == present[i]
                &&& r.path == ds[i].path
                &&& ds[i].connected == present[i] ==> r == ds[i]
                &&& ds[i].connected != present[i] ==> r.pending == -1
            },
{
}

/// The destination a finished check is recorded on is the first whose path
/// matches: none before it matches, and it matches unless none does.
pub proof fn lemma_first_with_path_found(ds: Seq<Dest>, p: Seq<char>)
    ensures
        first_with_path(ds, p) <= ds.len(),
        forall|k: int| 0 <= k < first_with_path(ds, p) ==> (#[trigger] ds[k]).path@ != p,
        first_with_path(ds, p) < ds.len() ==> ds[first_with_path(ds, p) as int].path@ == p,
        first_with_path(ds, p) == ds.len() ==> forall|k: int|
            0 <= k < ds.len() ==> (#[trigger] ds[k]).path@ != p,
    decreases ds.len(),
{
    if ds.len() > 0 && ds[0].path@ != p {
        let rest = ds.drop_first();
        lemma_first_with_path_found(rest, p);
        assert forall|k: int| 0 <= k < first_with_path(ds, p) implies (#[trigger] ds[k]).path@ != p by {
            if k > 0 {
                assert(ds[k] == rest[k - 1]);
            }
        }
        if first_with_path(ds, p) < ds.len() {
            assert(ds[first_with_path(ds, p) as int] == rest[first_with_path(rest, p) as int]);
        }
    }
}

} // verus!
