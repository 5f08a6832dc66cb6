use crate::cell::{lemma_id_fits, Cell, ID_LIMIT};
use crate::errors::PercolationError;
use crate::group::MergeList;
use rand::rngs::SmallRng;
use rand::{Rng, SeedableRng};
use vstd::prelude::*;

verus! {

/// A cell as `(colour, id)`.
pub type Site = (u8, u32);

/// A coordinate `(row, column)` recorded for a cluster.
pub type Evidence = (u32, u32);

/// The state of a row scan between two columns: the finished row above, the row being
/// labelled, and the registry's live groups and next id.
pub struct ScanState {
    pub prev: Seq<Site>,
    pub cur: Seq<Site>,
    pub groups: Map<u32, Seq<Evidence>>,
    pub next: u32,
}

/// A session as a whole: the last row, the registry's live groups and next id, and how
/// many rows have been labelled.
pub struct LatticeState {
    pub row: Seq<Site>,
    pub groups: Map<u32, Seq<Evidence>>,
    pub next: u32,
    pub done: u32,
}

/// The sites of a sequence of cells.
pub open spec fn sites(cells: Seq<Cell>) -> Seq<Site> {
    cells.map_values(|c: Cell| c@)
}

/// Every site with id `from` gets id `to`; all else stays.
pub open spec fn relabel(row: Seq<Site>, from: u32, to: u32) -> Seq<Site> {
    row.map_values(|x: Site| if x.1 == from { (x.0, to) } else { x })
}

/// In the first `n` sites, background and "no id" coincide.
pub open spec fn coupled_upto(row: Seq<Site>, n: int) -> bool {
    forall|i: int| 0 <= i < n ==> ((#[trigger] row[i]).0 == 0 <==> row[i].1 == 0)
}

/// Every id in the first `n` sites is a live group.
pub open spec fn live_upto(row: Seq<Site>, groups: Map<u32, Seq<Evidence>>, n: int) -> bool {
    forall|i: int| 0 <= i < n && (#[trigger] row[i]).1 != 0 ==> groups.contains_key(row[i].1)
}

/// Background and "no id" coincide everywhere in the row.
pub open spec fn coupled(row: Seq<Site>) -> bool {
    coupled_upto(row, row.len() as int)
}

/// Every id in the row is a live group.
pub open spec fn ids_live(row: Seq<Site>, groups: Map<u32, Seq<Evidence>>) -> bool {
    live_upto(row, groups, row.len() as int)
}

/// Sites that share an id (other than "no id") share their colour.
pub open spec fn one_colour(row: Seq<Site>) -> bool {
    forall|i: int, j: int|
        0 <= i < row.len() && 0 <= j < row.len() && (#[trigger] row[i]).1 != 0 && row[i].1 == (
        #[trigger] row[j]).1 ==> row[i].0 == row[j].0
}

/// Live ids lie in `1..next`, and `next` never passes the id capacity.
pub open spec fn registry_ok(groups: Map<u32, Seq<Evidence>>, next: u32) -> bool {
    &&& 1 <= next <= ID_LIMIT
    &&& forall|k: u32| #[trigger] groups.contains_key(k) ==> 1 <= k < next
}

/// A scan state before column `c`: both rows are consistent up to where they are
/// labelled, and the unlabelled rest of the current row has no ids.
pub open spec fn consistent(s: ScanState, c: int) -> bool {
    &&& s.prev.len() == s.cur.len()
    &&& 0 <= c <= s.cur.len()
    &&& coupled(s.prev)
    &&& ids_live(s.prev, s.groups)
    &&& coupled_upto(s.cur, c)
    &&& live_upto(s.cur, s.groups, c)
    &&& forall|j: int| c <= j < s.cur.len() ==> (#[trigger] s.cur[j]).1 == 0
    &&& registry_ok(s.groups, s.next)
    &&& one_colour(s.prev + s.cur.take(c))
}

/// The neighbour to the left of column `c`: background at the first column.
pub open spec fn left_of(s: ScanState, c: int) -> Site {
    if c == 0 {
        (0u8, 0u32)
    } else {
        s.cur[c - 1]
    }
}

/// Up and left share a foreground colour.
pub open spec fn joint(s: ScanState, c: int) -> bool {
    s.prev[c].0 != 0 && s.prev[c].0 == left_of(s, c).0
}

/// Column `c` joins group `id`, which records `at`.
pub open spec fn extend(s: ScanState, c: int, id: u32, at: Evidence) -> ScanState {
    ScanState {
        prev: s.prev,
        cur: s.cur.update(c, (s.cur[c].0, id)),
        groups: s.groups.insert(id, s.groups[id].push(at)),
        next: s.next,
    }
}

/// Labels column `c` of row `r`; `None` when a new cluster is needed and no id is left.
///
/// Background stays unlabelled. Where up and left share the cell's colour, the cell takes
/// up's id; if left's id differs, left's group is merged into up's, the cell is recorded
/// there, and left's id is rewritten to up's in both rows. Otherwise the cell joins up's
/// group, else left's group, when it shares that neighbour's colour, and else starts a
/// new group.
pub open spec fn step(s: ScanState, r: u32, c: int) -> Option<ScanState> {
    let cell = s.cur[c];
    let up = s.prev[c];
    let left = left_of(s, c);
    let at: Evidence = (r, c as u32);
    if cell.0 == 0 {
        Some(s)
    } else if joint(s, c) && cell.0 == up.0 && up.1 == left.1 {
        Some(
            ScanState {
                prev: s.prev,
                cur: s.cur.update(c, (cell.0, up.1)),
                groups: s.groups,
                next: s.next,
            },
        )
    } else if joint(s, c) && cell.0 == up.0 {
        Some(
            ScanState {
                prev: relabel(s.prev, left.1, up.1),
                cur: relabel(s.cur, left.1, up.1).update(c, (cell.0, up.1)),
                groups: s.groups.remove(left.1).insert(
                    up.1,
                    s.groups[up.1] + s.groups[left.1] + seq![at],
                ),
                next: s.next,
            },
        )
    } else if !joint(s, c) && cell.0 == up.0 {
        Some(extend(s, c, up.1, at))
    } else if !joint(s, c) && cell.0 == left.0 {
        Some(extend(s, c, left.1, at))
    } else if s.next < ID_LIMIT {
        Some(
            ScanState {
                prev: s.prev,
                cur: s.cur.update(c, (cell.0, s.next)),
                groups: s.groups.insert(s.next, seq![at]),
                next: (s.next + 1) as u32,
            },
        )
    } else {
        None
    }
}

/// The first `n` columns of row `r` labelled in order; `None` once ids run out.
pub open spec fn scan_columns(s: ScanState, r: u32, n: nat) -> Option<ScanState>
    decreases n,
{
    if n == 0 {
        Some(s)
    } else {
        match scan_columns(s, r, (n - 1) as nat) {
            Some(t) => step(t, r, n - 1),
            None => None,
        }
    }
}

/// The state in which a row of fresh colours is about to be labelled.
pub open spec fn start(
    prev: Seq<Site>,
    groups: Map<u32, Seq<Evidence>>,
    next: u32,
    colors: Seq<u8>,
) -> ScanState {
    ScanState { prev, cur: colors.map_values(|k: u8| (k, 0u32)), groups, next }
}

/// The labelled row and the registry after scanning `colors` below `prev` as row `r`.
pub open spec fn scan_row(
    prev: Seq<Site>,
    groups: Map<u32, Seq<Evidence>>,
    next: u32,
    colors: Seq<u8>,
    r: u32,
) -> Option<ScanState> {
    scan_columns(start(prev, groups, next, colors), r, colors.len())
}

/// An id that was handed out and has since been merged away.
pub open spec fn retired(groups: Map<u32, Seq<Evidence>>, next: u32, id: u32) -> bool {
    1 <= id < next && !groups.contains_key(id)
}

/// Labelling columns keeps a scan state consistent, never brings a retired id back, and
/// fails only for want of ids.
pub proof fn lemma_columns_consistent(s: ScanState, r: u32, n: nat)
    requires
        consistent(s, 0),
        n <= s.cur.len(),
    ensures
        match scan_columns(s, r, n) {
            Some(t) => consistent(t, n as int) && t.next >= s.next && t.cur.len() == s.cur.len()
                && forall|id: u32| retired(s.groups, s.next, id) ==> #[trigger] retired(t.groups, t.next, id),
            None => true,
        },
    decreases n,
{
    if n > 0 {
        lemma_columns_consistent(s, r, (n - 1) as nat);
        if let Some(u) = scan_columns(s, r, (n - 1) as nat) {
            lemma_step_consistent(u, r, n - 1);
            if let Some(t) = step(u, r, n - 1) {
                assert forall|id: u32| retired(s.groups, s.next, id) implies #[trigger] retired(t.groups, t.next, id) by {
                    assert(retired(u.groups, u.next, id));
                    assert(!u.groups.contains_key(id));
                    if u.cur[n - 1].1 == id {
                    }
                }
            }
        }
    }
}

/// Every row produced keeps colour and id coupled (background exactly where there is no
/// id), holds only live ids and hence no retired one, and a retired id stays retired.
pub proof fn lemma_row_labelled(
    prev: Seq<Site>,
    groups: Map<u32, Seq<Evidence>>,
    next: u32,
    colors: Seq<u8>,
    r: u32,
)
    requires
        colors.len() == prev.len(),
        coupled(prev),
        ids_live(prev, groups),
        registry_ok(groups, next),
        one_colour(prev),
    ensures
        match scan_row(prev, groups, next, colors, r) {
            Some(t) => {
                &&& coupled(t.cur)
                &&& one_colour(t.cur)
                &&& ids_live(t.cur, t.groups)
                &&& registry_ok(t.groups, t.next)
                &&& forall|i: int| 0 <= i < t.cur.len() ==> !retired(t.groups, t.next, (#[trigger] t.cur[i]).1)
                &&& forall|id: u32| retired(groups, next, id) ==> #[trigger] retired(t.groups, t.next, id)
            },
            None => true,
        },
{
    let s = start(prev, groups, next, colors);
    assert(s.prev + s.cur.take(0) =~= prev);
    lemma_columns_consistent(s, r, colors.len());
    if let Some(t) = scan_row(prev, groups, next, colors, r) {
        assert(t.cur.take(t.cur.len() as int) =~= t.cur);
        lemma_one_colour_suffix(t.prev, t.cur);
    }
}

/// Whether a cell of colour `cell`, below `up` and right of `left`, starts a new cluster:
/// it is foreground and matches neither neighbour.
pub open spec fn starts_cluster(up: u8, left: u8, cell: u8) -> bool {
    cell != 0 && cell != up && cell != left
}

/// How many of the first `n` columns start a new cluster; this depends on colours alone.
pub open spec fn new_clusters(s: ScanState, n: nat) -> nat
    decreases n,
{
    if n == 0 {
        0
    } else {
        new_clusters(s, (n - 1) as nat) + if starts_cluster(
            s.prev[n - 1].0,
            left_of(s, n - 1).0,
            s.cur[n - 1].0,
        ) {
            1nat
        } else {
            0nat
        }
    }
}

/// The two rows have the same length and the same colour at each position.
pub open spec fn same_colours(a: Seq<Site>, b: Seq<Site>) -> bool {
    &&& a.len() == b.len()
    &&& forall|i: int| 0 <= i < a.len() ==> (#[trigger] a[i]).0 == b[i].0
}

/// A step keeps every colour, takes a fresh id exactly when the cell starts a cluster, and
/// fails exactly when it would need one and none is left.
pub proof fn lemma_step_colours(s: ScanState, r: u32, c: int)
    requires
        0 <= c < s.cur.len(),
        s.prev.len() == s.cur.len(),
    ensures
        step(s, r, c) is None <==> (starts_cluster(s.prev[c].0, left_of(s, c).0, s.cur[c].0)
            && s.next >= ID_LIMIT),
        match step(s, r, c) {
            Some(t) => same_colours(t.prev, s.prev) && same_colours(t.cur, s.cur) && t.next == s.next
                + if starts_cluster(s.prev[c].0, left_of(s, c).0, s.cur[c].0) {
                1int
            } else {
                0int
            },
            None => true,
        },
{
}

/// Labelling the first `n` columns succeeds exactly when the clusters they start fit in
/// the ids left; it keeps every colour and uses one id per new cluster.
pub proof fn lemma_columns_count(s: ScanState, r: u32, n: nat)
    requires
        n <= s.cur.len(),
        s.prev.len() == s.cur.len(),
        s.next <= ID_LIMIT,
    ensures
        new_clusters(s, n) <= n,
        scan_columns(s, r, n) is Some <==> s.next + new_clusters(s, n) <= ID_LIMIT,
        match scan_columns(s, r, n) {
            Some(t) => same_colours(t.prev, s.prev) && same_colours(t.cur, s.cur) && t.next == s.next
                + new_clusters(s, n),
            None => true,
        },
    decreases n,
{
    if n > 0 {
        let m = (n - 1) as nat;
        lemma_columns_count(s, r, m);
        if let Some(u) = scan_columns(s, r, m) {
            lemma_step_colours(u, r, m as int);
            assert(u.prev[m as int].0 == s.prev[m as int].0);
            assert(u.cur[m as int].0 == s.cur[m as int].0);
            if m > 0 {
                assert(u.cur[m - 1].0 == s.cur[m - 1].0);
            }
            assert(left_of(u, m as int).0 == left_of(s, m as int).0);
            if let Some(t) = step(u, r, m as int) {
                assert forall|i: int| 0 <= i < t.prev.len() implies (#[trigger] t.prev[i]).0
                    == s.prev[i].0 by {
                    assert(u.prev[i].0 == s.prev[i].0);
                }
                assert forall|i: int| 0 <= i < t.cur.len() implies (#[trigger] t.cur[i]).0
                    == s.cur[i].0 by {
                    assert(u.cur[i].0 == s.cur[i].0);
                }
            }
        }
    }
}

/// Once ids run out, scanning further columns does not bring the row back.
pub proof fn lemma_none_stays(s: ScanState, r: u32, m: nat, n: nat)
    requires
        m <= n,
        scan_columns(s, r, m) is None,
    ensures
        scan_columns(s, r, n) is None,
    decreases n - m,
{
    if m < n {
        lemma_none_stays(s, r, m + 1, n);
    }
}

/// The session after labelling `colors` as its next row; `None` when ids run out.
pub open spec fn next_state(s: LatticeState, colors: Seq<u8>) -> Option<LatticeState> {
    match scan_row(s.row, s.groups, s.next, colors, s.done) {
        Some(t) => Some(
            LatticeState { row: t.cur, groups: t.groups, next: t.next, done: (s.done + 1) as u32 },
        ),
        None => None,
    }
}

/// The session after labelling `rows` in order; `None` when one of them runs out of ids.
pub open spec fn run(s: LatticeState, rows: Seq<Seq<u8>>) -> Option<LatticeState>
    decreases rows.len(),
{
    if rows.len() == 0 {
        Some(s)
    } else {
        match run(s, rows.drop_last()) {
            Some(u) => next_state(u, rows.last()),
            None => None,
        }
    }
}

/// A row of `width` colours, each drawn from `0..palette`.
pub open spec fn in_palette(colors: Seq<u8>, width: nat, palette: u8) -> bool {
    &&& colors.len() == width
    &&& forall|j: int| 0 <= j < colors.len() ==> (#[trigger] colors[j]) < palette
}

/// A site whose id is new, or is carried only by sites of its colour, keeps ids to one
/// colour.
pub proof fn lemma_one_colour_push(x: Seq<Site>, site: Site)
    requires
        one_colour(x),
        forall|i: int| 0 <= i < x.len() && (#[trigger] x[i]).1 == site.1 && site.1 != 0 ==> x[i].0 == site.0,
    ensures
        one_colour(x.push(site)),
{
    let y = x.push(site);
    assert forall|i: int, j: int|
        0 <= i < y.len() && 0 <= j < y.len() && (#[trigger] y[i]).1 != 0 && y[i].1 == (
        #[trigger] y[j]).1 implies y[i].0 == y[j].0 by {
        if i < x.len() && j < x.len() {
            assert(x[i] == y[i] && x[j] == y[j]);
        } else if i < x.len() {
            assert(x[i] == y[i]);
        } else if j < x.len() {
            assert(x[j] == y[j]);
        }
    }
}

/// Rewriting id `from` to `to` keeps ids to one colour when both ids are carried by sites
/// of one colour `k`; afterwards `to` is carried by sites of colour `k` alone.
pub proof fn lemma_one_colour_relabel(x: Seq<Site>, from: u32, to: u32, k: u8)
    requires
        one_colour(x),
        to != 0,
        forall|i: int|
            0 <= i < x.len() && ((#[trigger] x[i]).1 == from || x[i].1 == to) ==> x[i].0 == k,
    ensures
        one_colour(relabel(x, from, to)),
        forall|i: int|
            0 <= i < x.len() && (#[trigger] relabel(x, from, to)[i]).1 == to ==> relabel(
                x,
                from,
                to,
            )[i].0 == k,
{
    let y = relabel(x, from, to);
    assert forall|i: int| 0 <= i < x.len() && (#[trigger] y[i]).1 == to implies y[i].0 == k by {
        assert(x[i] == x[i]);
    }
    assert forall|i: int, j: int|
        0 <= i < y.len() && 0 <= j < y.len() && (#[trigger] y[i]).1 != 0 && y[i].1 == (
        #[trigger] y[j]).1 implies y[i].0 == y[j].0 by {
        assert(x[i] == x[i] && x[j] == x[j]);
    }
}

/// Ids kept to one colour over two rows are so over the second alone.
pub proof fn lemma_one_colour_suffix(x: Seq<Site>, y: Seq<Site>)
    requires
        one_colour(x + y),
    ensures
        one_colour(y),
{
    let z = x + y;
    assert forall|i: int, j: int|
        0 <= i < y.len() && 0 <= j < y.len() && (#[trigger] y[i]).1 != 0 && y[i].1 == (
        #[trigger] y[j]).1 implies y[i].0 == y[j].0 by {
        assert(z[x.len() + i] == y[i] && z[x.len() + j] == y[j]);
    }
}

/// One labelling step keeps ids to one colour over both rows.
pub proof fn lemma_step_one_colour(s: ScanState, r: u32, c: int)
    requires
        consistent(s, c),
        c < s.cur.len(),
    ensures
        match step(s, r, c) {
            Some(t) => one_colour(t.prev + t.cur.take(c + 1)),
            None => true,
        },
{
    let cell = s.cur[c];
    let up = s.prev[c];
    let left = left_of(s, c);
    let x = s.prev + s.cur.take(c);
    let p = s.prev.len() as int;
    assert(x[c] == up);
    if c > 0 {
        assert(x[p + c - 1] == left);
    }
    if let Some(t) = step(s, r, c) {
        let y = t.prev + t.cur.take(c + 1);
        if cell.0 == 0 {
            assert(y =~= x.push(cell));
            lemma_one_colour_push(x, cell);
        } else if joint(s, c) && cell.0 == up.0 {
            let k = up.0;
            assert(up.1 != 0);
            assert(left.1 != 0);
            assert forall|i: int|
                0 <= i < x.len() && ((#[trigger] x[i]).1 == left.1 || x[i].1 == up.1) implies x[i].0
                == k by {
                if x[i].1 == up.1 {
                    assert(x[i].0 == x[c].0);
                } else {
                    assert(x[i].0 == x[p + c - 1].0);
                }
            }
            lemma_one_colour_relabel(x, left.1, up.1, k);
            let rx = relabel(x, left.1, up.1);
            if up.1 == left.1 {
                assert(y =~= x.push((cell.0, up.1)));
                lemma_one_colour_push(x, (cell.0, up.1));
            } else {
                assert(y =~= rx.push((cell.0, up.1)));
                lemma_one_colour_push(rx, (cell.0, up.1));
            }
        } else if !joint(s, c) && cell.0 == up.0 {
            assert(up.1 != 0);
            assert forall|i: int| 0 <= i < x.len() && (#[trigger] x[i]).1 == up.1 && up.1 != 0 implies x[i].0 == cell.0 by {
                assert(x[i].0 == x[c].0);
            }
            assert(y =~= x.push((cell.0, up.1)));
            lemma_one_colour_push(x, (cell.0, up.1));
        } else if !joint(s, c) && cell.0 == left.0 {
            assert(c > 0);
            assert forall|i: int| 0 <= i < x.len() && (#[trigger] x[i]).1 == left.1 && left.1 != 0 implies x[i].0 == cell.0 by {
                assert(x[i].0 == x[p + c - 1].0);
            }
            assert(y =~= x.push((cell.0, left.1)));
            lemma_one_colour_push(x, (cell.0, left.1));
        } else {
            assert forall|i: int| 0 <= i < x.len() && (#[trigger] x[i]).1 == s.next && s.next != 0 implies x[i].0 == cell.0 by {
                if i < p {
                    assert(x[i] == s.prev[i]);
                    assert(s.groups.contains_key(s.prev[i].1));
                } else {
                    assert(x[i] == s.cur[i - p]);
                    assert(s.groups.contains_key(s.cur[i - p].1));
                }
            }
            assert(y =~= x.push((cell.0, s.next)));
            lemma_one_colour_push(x, (cell.0, s.next));
        }
    }
}

/// One labelling step keeps a scan state consistent, and fails only for want of ids.
pub proof fn lemma_step_consistent(s: ScanState, r: u32, c: int)
    requires
        consistent(s, c),
        c < s.cur.len(),
    ensures
        match step(s, r, c) {
            Some(t) => consistent(t, c + 1) && t.next >= s.next,
            None => s.next == ID_LIMIT,
        },
{
    lemma_step_one_colour(s, r, c);
    let cell = s.cur[c];
    let up = s.prev[c];
    let left = left_of(s, c);
    if cell.0 == 0 {
    } else if joint(s, c) && cell.0 == up.0 && up.1 == left.1 {
    } else if joint(s, c) && cell.0 == up.0 {
        let t = step(s, r, c).unwrap();
        assert(left.1 != 0);
        assert(s.groups.contains_key(left.1));
        assert forall|k: u32| #[trigger] t.groups.contains_key(k) implies 1 <= k < t.next by {
            assert(s.groups.contains_key(k));
        }
        assert forall|i: int| 0 <= i < t.prev.len() && (#[trigger] t.prev[i]).1 != 0 implies t.groups.contains_key(t.prev[i].1) by {
            assert(s.prev[i] == s.prev[i]);
        }
        assert forall|i: int| 0 <= i < c + 1 && (#[trigger] t.cur[i]).1 != 0 implies t.groups.contains_key(t.cur[i].1) by {
            if i < c {
                assert(s.cur[i] == s.cur[i]);
            }
        }
        assert forall|i: int| 0 <= i < t.prev.len() implies ((#[trigger] t.prev[i]).0 == 0 <==> t.prev[i].1 == 0) by {
            assert(s.prev[i] == s.prev[i]);
        }
        assert forall|i: int| 0 <= i < c + 1 implies ((#[trigger] t.cur[i]).0 == 0 <==> t.cur[i].1 == 0) by {
            if i < c {
                assert(s.cur[i] == s.cur[i]);
            }
        }
        assert forall|j: int| c + 1 <= j < t.cur.len() implies (#[trigger] t.cur[j]).1 == 0 by {
            assert(s.cur[j] == s.cur[j]);
        }
    } else if !joint(s, c) && cell.0 == up.0 {
        let t = step(s, r, c).unwrap();
        assert forall|k: u32| #[trigger] t.groups.contains_key(k) implies 1 <= k < t.next by {
            assert(s.groups.contains_key(k));
        }
    } else if !joint(s, c) && cell.0 == left.0 {
        let t = step(s, r, c).unwrap();
        assert(c > 0);
        assert(s.cur[c - 1] == left);
        assert forall|k: u32| #[trigger] t.groups.contains_key(k) implies 1 <= k < t.next by {
            assert(s.groups.contains_key(k));
        }
    } else if s.next < ID_LIMIT {
        let t = step(s, r, c).unwrap();
        assert forall|k: u32| #[trigger] t.groups.contains_key(k) implies 1 <= k < t.next by {
            if k != s.next {
                assert(s.groups.contains_key(k));
            }
        }
    }
}

#[verifier::external_type_specification]
#[verifier::external_body]
pub struct ExSmallRng(SmallRng);

/// Relies on rand's `SeedableRng::from_entropy` for `SmallRng`: a generator seeded by the
/// operating system.
#[verifier::external_body]
fn entropy_rng() -> SmallRng {
    SmallRng::from_entropy()
}

/// Relies on rand's `Rng::gen_range`: a value drawn uniformly from `0..colors` (it panics
/// on an empty range).
#[verifier::external_body]
fn sample_color(rng: &mut SmallRng, colors: u8) -> (r: u8)
    requires
        0 < colors,
    ensures
        r < colors,
{
    rng.gen_range(0..colors)
}

/// The cell with its id set to `id`.
fn with_id(cell: Cell, id: u32) -> (r: Cell)
    requires
        id < ID_LIMIT,
    ensures
        r@ == (cell@.0, id),
{
    let mut r = cell;
    match r.set_id(id) {
        Ok(()) => r,
        Err(_) => cell,
    }
}

/// Rewrites id `from` to `to` in the first `n` cells.
fn relabel_prefix(cells: &mut Vec<Cell>, n: usize, from: u32, to: u32)
    requires
        n <= old(cells).len(),
        to < ID_LIMIT,
    ensures
        final(cells).len() == old(cells).len(),
        forall|i: int|
            0 <= i < old(cells).len() ==> #[trigger] final(cells)@[i]@ == if i < n && old(
                cells,
            )@[i]@.1 == from {
                (old(cells)@[i]@.0, to)
            } else {
                old(cells)@[i]@
            },
{
    let mut i: usize = 0;
    while i < n
        invariant
            i <= n,
            n <= cells.len(),
            cells.len() == old(cells).len(),
            to < ID_LIMIT,
            forall|j: int|
                0 <= j < old(cells).len() ==> #[trigger] cells@[j]@ == if j < i && old(
                    cells,
                )@[j]@.1 == from {
                    (old(cells)@[j]@.0, to)
                } else {
                    old(cells)@[j]@
                },
        decreases n - i,
    {
        let c = cells[i];
        if c.is_id(from) {
            cells.set(i, with_id(c, to));
        }
        i = i + 1;
    }
}

/// Cluster states of a site, as a percolation study classifies them.
pub enum MCState {
    Empty,
    Occupied,
    Complete,
}

/// A square lattice generated row by row with random colours, each cluster of equal,
/// non-background colour labelled with one id under up/left adjacency.
///
/// Only the last finished row is kept; every cluster's coordinates live in the registry.
/// A merge rewrites at most the two rows in hand, so one row costs at most quadratic time
/// in the width.
#[derive(Debug)]
pub struct SquareSite {
    width: u32,
    lines: u32,
    last: Vec<Cell>,
    groups: MergeList<Evidence>,
    rng: SmallRng,
    colors: u8,
}

impl SquareSite {
    /// The lattice width.
    pub closed spec fn cols(&self) -> nat {
        self.width as nat
    }

    /// How many rows have been labelled.
    pub closed spec fn rows_done(&self) -> u32 {
        self.lines
    }

    /// The last labelled row (all background before the first).
    pub closed spec fn row(&self) -> Seq<Site> {
        sites(self.last@)
    }

    /// The live clusters with their coordinates.
    pub closed spec fn registry(&self) -> Map<u32, Seq<Evidence>> {
        self.groups.live()
    }

    /// The id that the next cluster will get.
    pub closed spec fn next_id(&self) -> u32 {
        self.groups.next()
    }

    /// Colours are drawn from `0..palette`.
    pub closed spec fn palette(&self) -> u8 {
        self.colors
    }

    /// The palette is not empty, the last row spans the width, and it is labelled
    /// consistently with a well-formed registry.
    pub closed spec fn wf(&self) -> bool {
        &&& 0 < self.colors
        &&& self.last.len() == self.width
        &&& self.groups.wf()
        &&& coupled(self.row())
        &&& ids_live(self.row(), self.registry())
        &&& one_colour(self.row())
    }

    /// The scan state at the start of a row of `colors`.
    pub open spec fn start_of(&self, colors: Seq<u8>) -> ScanState {
        start(self.row(), self.registry(), self.next_id(), colors)
    }

    /// A lattice of the given width whose colours are drawn uniformly from `0..colors`,
    /// 0 being the background; no row yet.
    pub fn new(width: usize, colors: u8) -> (r: Self)
        requires
            width <= u32::MAX,
            0 < colors,
        ensures
            r.palette() == colors,
            r.wf(),
            r.cols() == width,
            r.rows_done() == 0,
            r.row() == Seq::new(width as nat, |i: int| (0u8, 0u32)),
            r.registry() == Map::<u32, Seq<Evidence>>::empty(),
            r.next_id() == 1,
    {
        let mut last: Vec<Cell> = Vec::new();
        let mut i: usize = 0;
        while i < width
            invariant
                i <= width,
                last.len() == i,
                forall|j: int| 0 <= j < i ==> (#[trigger] last@[j])@ == (0u8, 0u32),
            decreases width - i,
        {
            last.push(Cell::new(0));
            i = i + 1;
        }
        let r = SquareSite {
            width: width as u32,
            lines: 0,
            last,
            groups: MergeList::new(),
            rng: entropy_rng(),
            colors,
        };
        assert(r.row() =~= Seq::new(width as nat, |i: int| (0u8, 0u32)));
        r
    }

    /// A lattice whose colours are uniform over `0..color`, 0 being the background.
    pub fn uniform(width: usize, color: u8) -> (r: Self)
        requires
            width <= u32::MAX,
            0 < color,
        ensures
            r.palette() == color,
            r.wf(),
            r.cols() == width,
            r.rows_done() == 0,
            r.row() == Seq::new(width as nat, |i: int| (0u8, 0u32)),
            r.registry() == Map::<u32, Seq<Evidence>>::empty(),
            r.next_id() == 1,
    {
        SquareSite::new(width, color)
    }

    /// The session as a whole.
    pub open spec fn state(&self) -> LatticeState {
        LatticeState {
            row: self.row(),
            groups: self.registry(),
            next: self.next_id(),
            done: self.rows_done(),
        }
    }

    /// `after` is this session with `colors` labelled as its next row, `r` being the result:
    /// the state that `next_state` gives, or `ClusterIdOverflow` with the session unchanged
    /// when ids run out.
    pub open spec fn scanned(
        &self,
        after: &SquareSite,
        colors: Seq<u8>,
        r: Result<(), PercolationError>,
    ) -> bool {
        match next_state(self.state(), colors) {
            Some(t) => r == Ok::<(), PercolationError>(()) && after.state() == t,
            None => r == Err::<(), _>(PercolationError::ClusterIdOverflow) && after.state()
                == self.state(),
        }
    }

    /// The scan state with `cur` as the row being labelled.
    pub closed spec fn scan_state(&self, cur: Seq<Cell>) -> ScanState {
        ScanState { prev: self.row(), cur: sites(cur), groups: self.registry(), next: self.next_id() }
    }

    /// Labels `colors` as the next row, below the last one, and makes it the last row.
    ///
    /// The result is the one `next_state` gives. Before anything changes, the clusters that
    /// the row will start are counted from the colours; when they do not fit in the ids left,
    /// fails with `ClusterIdOverflow` and leaves the session as it was.
    pub fn scan_colors(&mut self, colors: &Vec<u8>) -> (r: Result<(), PercolationError>)
        requires
            old(self).wf(),
            colors.len() == old(self).cols(),
            old(self).rows_done() < u32::MAX,
        ensures
            final(self).wf(),
            final(self).cols() == old(self).cols(),
            final(self).palette() == old(self).palette(),
            coupled(final(self).row()),
            ids_live(final(self).row(), final(self).registry()),
            one_colour(final(self).row()),
            old(self).scanned(final(self), colors@, r),
            final(self).next_id() <= old(self).next_id() + old(self).cols(),
            old(self).next_id() + old(self).cols() <= ID_LIMIT ==> r is Ok,
    {
        let r = self.lines;
        let width = self.last.len();
        assert(sites(self.last@).len() == width);
        let ghost s0 = self.start_of(colors@);
        let mut fresh: usize = 0;
        let mut c: usize = 0;
        while c < width
            invariant
                width == self.last.len(),
                width == colors.len(),
                s0 == self.start_of(colors@),
                c <= width,
                fresh == new_clusters(s0, c as nat),
                fresh <= c,
            decreases width - c,
        {
            let up = self.last[c].get_color();
            let k = colors[c];
            let left = if c == 0 {
                0
            } else {
                colors[c - 1]
            };
            proof {
                assert(s0.prev[c as int].0 == up);
                assert(s0.cur[c as int].0 == k);
                assert(left_of(s0, c as int).0 == left);
            }
            if k != 0 && k != up && k != left {
                fresh = fresh + 1;
            }
            c = c + 1;
        }
        proof {
            lemma_columns_count(s0, r, width as nat);
        }
        if self.groups.next_id() as u64 + fresh as u64 > ID_LIMIT as u64 {
            return Err(PercolationError::ClusterIdOverflow);
        }
        let width = self.last.len();
        let mut new: Vec<Cell> = Vec::new();
        let mut i: usize = 0;
        while i < colors.len()
            invariant
                i <= colors.len(),
                new.len() == i,
                forall|j: int| 0 <= j < i ==> (#[trigger] new@[j])@ == (colors@[j], 0u32),
            decreases colors.len() - i,
        {
            new.push(Cell::new(colors[i]));
            i = i + 1;
        }
        assert(sites(new@) =~= s0.cur);
        assert(s0.prev + s0.cur.take(0) =~= s0.prev);
        let mut column: usize = 0;
        while column < width
            invariant
                width == self.last.len(),
                width == self.width as int,
                width == new.len(),
                width == colors.len(),
                self.width == old(self).width,
                self.colors == old(self).colors,
                0 < self.colors,
                self.lines == r,
                r == old(self).lines,
                column <= width,
                self.groups.wf(),
                s0 == old(self).start_of(colors@),
                scan_columns(s0, r, width as nat) is Some,
                scan_columns(s0, r, column as nat) == Some(self.scan_state(new@)),
                consistent(self.scan_state(new@), column as int),
            decreases width - column,
        {
            let ghost s = self.scan_state(new@);
            proof {
                lemma_step_consistent(s, r, column as int);
            }
            let up = self.last[column];
            let left = if column == 0 {
                Cell::new(0)
            } else {
                new[column - 1]
            };
            let cell = new[column];
            let at: Evidence = (r, column as u32);
            let shared = !up.is_white() && up.same_color(&left);
            proof {
                lemma_id_fits(up);
                lemma_id_fits(left);
                assert(up@ == s.prev[column as int]);
                assert(left@ == left_of(s, column as int));
                assert(cell@ == s.cur[column as int]);
                assert(shared == joint(s, column as int));
            }
            if cell.is_white() {
            } else if shared && cell.same_color(&up) && up.get_id() == left.get_id() {
                new.set(column, with_id(cell, up.get_id()));
                assert(sites(new@) =~= step(s, r, column as int).unwrap().cur);
            } else if shared && cell.same_color(&up) {
                let keep = up.get_id();
                let gone = left.get_id();
                if let Err(e) = self.groups.merge_group(keep, gone) {
                    return Err(e);
                }
                if let Err(e) = self.groups.insert(keep, at) {
                    return Err(e);
                }
                relabel_prefix(&mut self.last, width, gone, keep);
                relabel_prefix(&mut new, column, gone, keep);
                new.set(column, with_id(cell, keep));
                let ghost t = step(s, r, column as int).unwrap();
                assert((s.groups[keep] + s.groups[gone]).push(at) =~= s.groups[keep]
                    + s.groups[gone] + seq![at]);
                assert(self.row() =~= t.prev);
                assert(sites(new@) =~= t.cur);
                assert(self.registry() =~= t.groups);
            } else if !shared && cell.same_color(&up) {
                let id = up.get_id();
                if let Err(e) = self.groups.insert(id, at) {
                    return Err(e);
                }
                new.set(column, with_id(cell, id));
                assert(sites(new@) =~= step(s, r, column as int).unwrap().cur);
            } else if !shared && cell.same_color(&left) {
                let id = left.get_id();
                if let Err(e) = self.groups.insert(id, at) {
                    return Err(e);
                }
                new.set(column, with_id(cell, id));
                assert(sites(new@) =~= step(s, r, column as int).unwrap().cur);
            } else {
                match self.groups.create(at) {
                    Ok(id) => {
                        new.set(column, with_id(cell, id));
                        assert(sites(new@) =~= step(s, r, column as int).unwrap().cur);
                    },
                    Err(e) => {
                        proof {
                            lemma_none_stays(s0, r, (column + 1) as nat, width as nat);
                        }
                        return Err(e);
                    },
                }
            }
            column = column + 1;
        }
        proof {
            let t = self.scan_state(new@);
            assert(t.cur.take(width as int) =~= t.cur);
            lemma_one_colour_suffix(t.prev, t.cur);
        }
        self.last = new;
        self.lines = r + 1;
        Ok(())
    }


    /// Draws the next row's colours and labels it (see `scan_colors`).
    pub fn scan_line(&mut self) -> (r: Result<(), PercolationError>)
        requires
            old(self).wf(),
            old(self).rows_done() < u32::MAX,
        ensures
            final(self).wf(),
            final(self).cols() == old(self).cols(),
            final(self).palette() == old(self).palette(),
            coupled(final(self).row()),
            ids_live(final(self).row(), final(self).registry()),
            one_colour(final(self).row()),
            exists|k: Seq<u8>|
                in_palette(k, old(self).cols(), old(self).palette()) && #[trigger] old(
                    self,
                ).scanned(final(self), k, r),
            final(self).next_id() <= old(self).next_id() + old(self).cols(),
            old(self).next_id() + old(self).cols() <= ID_LIMIT ==> r is Ok,
    {
        let width = self.last.len();
        let mut colors: Vec<u8> = Vec::new();
        let mut i: usize = 0;
        while i < width
            invariant
                i <= width,
                width == self.last.len(),
                colors.len() == i,
                0 < self.colors,
                self.last == old(self).last,
                self.groups == old(self).groups,
                self.lines == old(self).lines,
                self.width == old(self).width,
                self.colors == old(self).colors,
                forall|j: int| 0 <= j < i ==> colors@[j] < self.colors,
            decreases width - i,
        {
            let k = sample_color(&mut self.rng, self.colors);
            colors.push(k);
            i = i + 1;
        }
        let ghost mid = *self;
        let r = self.scan_colors(&colors);
        assert(mid.state() == old(self).state());
        assert(in_palette(colors@, old(self).cols(), old(self).palette()));
        assert(old(self).scanned(self, colors@, r));
        r
    }

    /// Labels `lines` more rows, stopping at the first failure.
    ///
    /// The session moves through the rows drawn, in order: all `lines` of them on success;
    /// on failure, the rows before the one that ran out of ids, which left the session as
    /// it was. Success is owed whenever the ids left cover a new cluster in every cell.
    pub fn scan(&mut self, lines: usize) -> (r: Result<(), PercolationError>)
        requires
            old(self).wf(),
            old(self).rows_done() + lines <= u32::MAX,
        ensures
            final(self).wf(),
            final(self).cols() == old(self).cols(),
            final(self).palette() == old(self).palette(),
            coupled(final(self).row()),
            ids_live(final(self).row(), final(self).registry()),
            one_colour(final(self).row()),
            exists|rows: Seq<Seq<u8>>|
                {
                    &&& rows.len() <= lines
                    &&& forall|i: int|
                        0 <= i < rows.len() ==> in_palette(
                            #[trigger] rows[i],
                            old(self).cols(),
                            old(self).palette(),
                        )
                    &&& r is Ok ==> rows.len() == lines && #[trigger] run(old(self).state(), rows)
                        == Some(final(self).state())
                    &&& r is Err ==> rows.len() >= 1 && run(old(self).state(), rows.drop_last())
                        == Some(final(self).state()) && run(old(self).state(), rows) is None
                },
            r is Err ==> r == Err::<(), _>(PercolationError::ClusterIdOverflow),
            lines == 0 ==> r is Ok && final(self).state() == old(self).state(),
            old(self).next_id() + lines * old(self).cols() <= ID_LIMIT ==> r is Ok,
    {
        let ghost mut rows: Seq<Seq<u8>> = Seq::empty();
        let mut n: usize = 0;
        while n < lines
            invariant
                n <= lines,
                self.wf(),
                self.cols() == old(self).cols(),
                self.palette() == old(self).palette(),
                coupled(self.row()),
                ids_live(self.row(), self.registry()),
                self.rows_done() == old(self).rows_done() + n,
                old(self).rows_done() + lines <= u32::MAX,
                rows.len() == n,
                forall|i: int|
                    0 <= i < rows.len() ==> in_palette(
                        #[trigger] rows[i],
                        old(self).cols(),
                        old(self).palette(),
                    ),
                run(old(self).state(), rows) == Some(self.state()),
                self.next_id() <= old(self).next_id() + n * old(self).cols(),
            decreases lines - n,
        {
            let ghost before = *self;
            let r = self.scan_line();
            let ghost k = choose|k: Seq<u8>|
                in_palette(k, before.cols(), before.palette()) && #[trigger] before.scanned(
                    self,
                    k,
                    r,
                );
            proof {
                assert(rows.push(k).drop_last() =~= rows);
                let w = old(self).cols();
                let nn = n as int;
                let ll = lines as int;
                assert(nn * w + w == (nn + 1) * w) by (nonlinear_arith);
                assert((nn + 1) * w <= ll * w) by (nonlinear_arith)
                    requires
                        nn + 1 <= ll,
                        w >= 0,
                ;
            }
            if r.is_err() {
                proof {
                    let rows2 = rows.push(k);
                    assert(rows2.last() == k);
                    assert(forall|i: int|
                        0 <= i < rows2.len() ==> in_palette(
                            #[trigger] rows2[i],
                            old(self).cols(),
                            old(self).palette(),
                        ));
                    assert(run(old(self).state(), rows2) is None);
                }
                return Err(PercolationError::ClusterIdOverflow);
            }
            proof {
                let rows2 = rows.push(k);
                assert(rows2.last() == k);
                assert(forall|i: int|
                    0 <= i < rows2.len() ==> in_palette(
                        #[trigger] rows2[i],
                        old(self).cols(),
                        old(self).palette(),
                    ));
                rows = rows2;
            }
            n = n + 1;
        }
        assert(run(old(self).state(), rows) == Some(self.state()));
        Ok(())
    }

    /// The lattice width.
    pub fn width(&self) -> (r: usize)
        requires
            self.wf(),
        ensures
            r == self.cols(),
    {
        self.last.len()
    }

    /// How many rows have been labelled.
    pub fn lines(&self) -> (r: u32)
        ensures
            r == self.rows_done(),
    {
        self.lines
    }

    /// The last labelled row.
    pub fn last_row(&self) -> (r: &Vec<Cell>)
        ensures
            sites(r@) == self.row(),
    {
        &self.last
    }

    /// The cluster registry.
    pub fn groups(&self) -> (r: &MergeList<Evidence>)
        ensures
            r.live() == self.registry(),
            r.next() == self.next_id(),
    {
        &self.groups
    }

}


/// In every session, the last row keeps colour and id coupled, and each id in it names a
/// live cluster, so none is retired.
pub proof fn lemma_session_labelled(s: &SquareSite)
    requires
        s.wf(),
    ensures
        s.row().len() == s.cols(),
        coupled(s.row()),
        one_colour(s.row()),
        ids_live(s.row(), s.registry()),
        registry_ok(s.registry(), s.next_id()),
        forall|i: int|
            0 <= i < s.row().len() ==> !retired(s.registry(), s.next_id(), (#[trigger] s.row()[i]).1),
{
    assert forall|k: u32| #[trigger] s.registry().contains_key(k) implies 1 <= k < s.next_id() by {
        assert(s.groups.live().contains_key(k));
    }
}

/// Two sessions in the same state that label the same colours end with the same result
/// and in the same state, whether the row succeeds or runs out of ids.
pub proof fn lemma_deterministic(
    a: &SquareSite,
    b: &SquareSite,
    a2: &SquareSite,
    b2: &SquareSite,
    colors: Seq<u8>,
    ra: Result<(), PercolationError>,
    rb: Result<(), PercolationError>,
)
    requires
        a.state() == b.state(),
        a.scanned(a2, colors, ra),
        b.scanned(b2, colors, rb),
    ensures
        ra == rb,
        a2.state() == b2.state(),
{
}

/// Labelling a row, whether it succeeds or runs out of ids, leaves a retired id retired
/// and on no cell of the last row.
pub proof fn lemma_retired_stays(
    a: &SquareSite,
    a2: &SquareSite,
    colors: Seq<u8>,
    r: Result<(), PercolationError>,
    id: u32,
)
    requires
        a.wf(),
        colors.len() == a.cols(),
        a.scanned(a2, colors, r),
        retired(a.registry(), a.next_id(), id),
    ensures
        retired(a2.registry(), a2.next_id(), id),
        forall|i: int| 0 <= i < a2.row().len() ==> (#[trigger] a2.row()[i]).1 != id,
{
    lemma_session_labelled(a);
    lemma_row_labelled(a.row(), a.registry(), a.next_id(), colors, a.rows_done());
    assert forall|i: int| 0 <= i < a2.row().len() implies (#[trigger] a2.row()[i]).1 != id by {
        if a2.row()[i].1 == id {
            assert(a2.registry().contains_key(id));
        }
    }
}

/// When a cell bridges two clusters (up and left share its colour under different ids),
/// the surviving cluster keeps up's id and its coordinates are up's, then left's, then the
/// bridging cell's; left's id is retired and appears in neither row any more.
pub proof fn lemma_merge_step(s: ScanState, r: u32, c: int)
    requires
        consistent(s, c),
        c < s.cur.len(),
        s.cur[c].0 != 0,
        joint(s, c),
        s.cur[c].0 == s.prev[c].0,
        s.prev[c].1 != left_of(s, c).1,
    ensures
        ({
            let up = s.prev[c].1;
            let left = left_of(s, c).1;
            let t = step(s, r, c).unwrap();
            &&& step(s, r, c) is Some
            &&& t.groups[up] == s.groups[up] + s.groups[left] + seq![(r, c as u32)]
            &&& retired(t.groups, t.next, left)
            &&& forall|i: int| 0 <= i < t.prev.len() ==> (#[trigger] t.prev[i]).1 != left
            &&& forall|i: int| 0 <= i < t.cur.len() ==> (#[trigger] t.cur[i]).1 != left
        }),
{
    let left = left_of(s, c).1;
    assert(left != 0);
    assert(s.groups.contains_key(left));
    let t = step(s, r, c).unwrap();
    assert forall|i: int| 0 <= i < t.prev.len() implies (#[trigger] t.prev[i]).1 != left by {
        assert(s.prev[i] == s.prev[i]);
    }
    assert forall|i: int| 0 <= i < t.cur.len() implies (#[trigger] t.cur[i]).1 != left by {
        assert(s.cur[i] == s.cur[i]);
    }
}

} // verus!
