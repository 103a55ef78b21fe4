use vstd::prelude::*;

use crate::explorer::{click_outcome, is_double, level_of, on_toggle, FilePickerExplorer, PickerAction, DOUBLE_CLICK_MS};
use crate::picker::{framed, merged, FilePickerData};
use crate::tree::{count_of, is_prefix, kept, path_view, DirEntry, FileNodeItem};

verus! {

/// The count that a node must hold: nothing while it is a file or
/// collapsed, else one row per child plus the rows that child contributes.
pub open spec fn consistent(n: FileNodeItem) -> bool {
    n.children_open_count == (if n.is_dir && n.open {
        count_of(n.children@, n.children.len() as int)
    } else {
        0
    })
}

/// Every node reachable in a well-formed picker holds a consistent count.
/// Every operation on the picker keeps it well-formed, so this holds after
/// each merge, expansion and collapse.
pub proof fn law_counts_consistent(d: FilePickerData, p: Seq<Seq<char>>)
    requires
        d.wf(),
        d.node_at(p) is Some,
    ensures
        consistent(d.node_at(p).unwrap()),
{
    d.root.lemma_descend(p);
}

/// The press at `(x, y)` falls on the toggle of an unread directory row.
pub open spec fn toggles_unread(ex: FilePickerExplorer, d: FilePickerData, x: u64, y: u64) -> bool {
    let k = y / ex.line_height;
    &&& k < d.listing().len()
    &&& d.listing()[k as int].is_dir
    &&& !d.listing()[k as int].read
    &&& on_toggle(x as int, y as int, level_of(d.listing()[k as int], d.pwd), ex.line_height as int)
}

/// A press on the toggle of an unread directory asks for exactly one read,
/// of that directory, and changes no node. Once the listing read for it is
/// merged, the directory is shown and every node from the root down to it
/// holds a consistent count.
pub proof fn law_read_on_toggle_then_merge(
    ex: FilePickerExplorer,
    ex2: FilePickerExplorer,
    d: FilePickerData,
    d2: FilePickerData,
    d3: FilePickerData,
    x: u64,
    y: u64,
    now: u64,
    actions: Seq<PickerAction>,
    es: Seq<DirEntry>,
)
    requires
        ex.wf(),
        d.wf(),
        toggles_unread(ex, d, x, y),
        click_outcome(ex, ex2, d, d2, x, y, now, actions),
        d3.wf(),
        merged(
            d2.node_at(d.listing()[(y / ex.line_height) as int].pv()).unwrap(),
            d3.node_at(d.listing()[(y / ex.line_height) as int].pv()),
            d.listing()[(y / ex.line_height) as int].pv(),
            es,
        ),
    ensures
        ({
            let n = d.listing()[(y / ex.line_height) as int];
            &&& actions.len() == 1
            &&& actions[0] matches PickerAction::ReadDir(q) && path_view(q) == n.pv()
            &&& d2.root == d.root
            &&& d3.node_at(n.pv()).unwrap().open
            &&& forall|j: int|
                0 <= j <= n.pv().len() ==> #[trigger] d3.node_at(n.pv().take(j)) is Some && consistent(
                    d3.node_at(n.pv().take(j)).unwrap(),
                )
        }),
{
    let n = d.listing()[(y / ex.line_height) as int];
    assert forall|j: int| 0 <= j <= n.pv().len() implies #[trigger] d3.node_at(n.pv().take(j)) is Some && consistent(
        d3.node_at(n.pv().take(j)).unwrap(),
    ) by {
        d3.root.lemma_descend_prefix(n.pv(), j);
        law_counts_consistent(d3, n.pv().take(j));
    }
}

/// The press at `(x, y)` falls on a row of the listing, off any toggle, and
/// does not repeat an earlier click.
pub open spec fn fresh_row_press(ex: FilePickerExplorer, d: FilePickerData, x: u64, y: u64, now: u64) -> bool {
    let k = y / ex.line_height;
    &&& k < d.listing().len()
    &&& !(d.listing()[k as int].is_dir && on_toggle(
        x as int,
        y as int,
        level_of(d.listing()[k as int], d.pwd),
        ex.line_height as int,
    ))
    &&& !is_double(ex.last_left_click, k as int, now as int)
}

/// Two presses on the same row, the second less than the double-click
/// window after the first: the first only selects the row; the second
/// enters a directory (showing it, clearing the selection, and asking for
/// one read of it) or opens a file and closes the picker.
pub proof fn law_double_click(
    ex: FilePickerExplorer,
    ex2: FilePickerExplorer,
    ex3: FilePickerExplorer,
    d: FilePickerData,
    d2: FilePickerData,
    d3: FilePickerData,
    x: u64,
    y: u64,
    t1: u64,
    t2: u64,
    a1: Seq<PickerAction>,
    a2: Seq<PickerAction>,
)
    requires
        ex.wf(),
        d.wf(),
        fresh_row_press(ex, d, x, y, t1),
        t1 <= t2 < t1 + DOUBLE_CLICK_MS,
        click_outcome(ex, ex2, d, d2, x, y, t1, a1),
        ex2.line_height == ex.line_height,
        click_outcome(ex2, ex3, d2, d3, x, y, t2, a2),
    ensures
        ({
            let k = y / ex.line_height;
            let n = d.listing()[k as int];
            &&& a1.len() == 0
            &&& d2.index == Some(k as usize)
            &&& ex3.last_left_click is None
            &&& d3.root == d.root
            &&& if n.is_dir {
                &&& path_view(d3.pwd) == n.pv()
                &&& d3.index is None
                &&& a2.len() == 1
                &&& a2[0] matches PickerAction::ReadDir(q) && path_view(q) == n.pv()
            } else {
                &&& d3.pwd == d.pwd
                &&& !d3.active
                &&& a2.len() == 2
                &&& a2[0] matches PickerAction::OpenFile(q) && path_view(q) == n.pv()
                &&& a2[1] is ClosePicker
            }
        }),
{
    d.lemma_listing_len();
}

/// Two presses on the same row at least the double-click window apart
/// only select the row, twice: no action, and the directory shown stays.
pub proof fn law_slow_clicks(
    ex: FilePickerExplorer,
    ex2: FilePickerExplorer,
    ex3: FilePickerExplorer,
    d: FilePickerData,
    d2: FilePickerData,
    d3: FilePickerData,
    x: u64,
    y: u64,
    t1: u64,
    t2: u64,
    a1: Seq<PickerAction>,
    a2: Seq<PickerAction>,
)
    requires
        ex.wf(),
        d.wf(),
        fresh_row_press(ex, d, x, y, t1),
        t2 >= t1 + DOUBLE_CLICK_MS,
        click_outcome(ex, ex2, d, d2, x, y, t1, a1),
        ex2.line_height == ex.line_height,
        click_outcome(ex2, ex3, d2, d3, x, y, t2, a2),
    ensures
        a1.len() == 0,
        a2.len() == 0,
        d2.index == Some((y / ex.line_height) as usize),
        d3.index == Some((y / ex.line_height) as usize),
        d3.pwd == d.pwd,
        d3.root == d.root,
        d3.active == d.active,
        ex3.last_left_click == Some(((y / ex.line_height) as usize, t2)),
{
}

/// Every node from `p.take(j)` down to, but not including, `p` shows its
/// children in `d`.
pub open spec fn open_between(d: FilePickerData, p: Seq<Seq<char>>, j: int) -> bool {
    forall|t: int| j <= t < p.len() ==> (#[trigger] d.node_at(p.take(t))).unwrap().shows_children()
}

/// The rows that the node at `q` gained from `d` to `d2`.
pub open spec fn gained(d: FilePickerData, d2: FilePickerData, q: Seq<Seq<char>>) -> int {
    d2.node_at(q).unwrap().children_open_count - d.node_at(q).unwrap().children_open_count
}

/// After a change at `p` that keeps the picker well-formed and leaves every
/// node off the way to `p` in place (as a merge or a toggle does), a node on
/// the way to `p` gains exactly the rows that the node at `p` gained when it
/// and every node below it down to `p` show their children, and none
/// otherwise. Merges and toggles thus repair every ancestor's count.
pub proof fn law_ancestor_counts(d: FilePickerData, d2: FilePickerData, p: Seq<Seq<char>>, j: int)
    requires
        d.wf(),
        d2.wf(),
        d.node_at(p) is Some,
        d2.node_at(p) is Some,
        framed(d, d2, p),
        0 <= j <= p.len(),
    ensures
        d.node_at(p.take(j)) is Some,
        d2.node_at(p.take(j)) is Some,
        gained(d, d2, p.take(j)) == (if open_between(d, p, j) { gained(d, d2, p) } else { 0 }),
    decreases p.len() - j,
{
    d.root.lemma_descend_prefix(p, j);
    d2.root.lemma_descend_prefix(p, j);
    if j == p.len() {
        assert(p.take(j) =~= p);
    } else {
        law_ancestor_counts(d, d2, p, j + 1);
        let qa = p.take(j);
        let qc = p.take(j + 1);
        assert(qa + seq![p[j]] =~= qc);
        let a = d.node_at(qa).unwrap();
        let a2 = d2.node_at(qa).unwrap();
        d.root.lemma_descend(qa);
        d2.root.lemma_descend(qa);
        d.root.lemma_descend_concat(qa, seq![p[j]]);
        d2.root.lemma_descend_concat(qa, seq![p[j]]);
        // the node at `qa` lies on the way to `p`
        assert(is_prefix(qa, p)) by {
            assert(p.subrange(0, j) =~= qa);
        }
        assert(!is_prefix(p, qa));
        assert(kept(a, a2, true));
        let i = a.child_index_from(p[j], 0).unwrap();
        a.lemma_child_index_from(p[j], 0, i);
        a.lemma_same_names(a2, p[j], 0);
        assert(a.descend(seq![p[j]]) == a.children[i].descend(seq![p[j]].drop_first()));
        assert(seq![p[j]].drop_first().len() == 0);
        assert(d.node_at(qc) == Some(a.children[i]));
        assert(a2.child_index_from(p[j], 0) == Some(i));
        assert(a2.descend(seq![p[j]]) == a2.children[i].descend(seq![p[j]].drop_first()));
        assert(d2.node_at(qc) == Some(a2.children[i]));
        // every other child of the node at `qa` is unchanged
        assert forall|k: int| 0 <= k < a.children.len() && k != i implies a2.children[k] == a.children[k] by {
            let nk = a.children[k].name();
            let q = qa.push(nk);
            a.lemma_unique_name(k, 0);
            a.lemma_same_names(a2, nk, 0);
            d.root.lemma_descend_concat(qa, seq![nk]);
            d2.root.lemma_descend_concat(qa, seq![nk]);
            assert(qa + seq![nk] =~= q);
            assert(seq![nk].drop_first().len() == 0);
            assert(a.descend(seq![nk]) == a.children[k].descend(seq![nk].drop_first()));
            assert(a2.descend(seq![nk]) == a2.children[k].descend(seq![nk].drop_first()));
            assert(d.node_at(q) == Some(a.children[k]));
            assert(d2.node_at(q) == Some(a2.children[k]));
            assert(nk != p[j]) by {
                a.lemma_unique_name(i, 0);
            }
            assert(!is_prefix(p, q)) by {
                if is_prefix(p, q) {
                    assert(p.len() == j + 1);
                    assert(q.subrange(0, p.len() as int)[j] == p[j]);
                }
            }
            assert(!is_prefix(q, p)) by {
                if is_prefix(q, p) {
                    assert(p.subrange(0, q.len() as int)[j] == q[j]);
                }
            }
            assert(kept(d.node_at(q).unwrap(), d2.node_at(q).unwrap(), false));
        }
        assert(a2.children@ =~= a.children@.update(i, a2.children[i]));
        FileNodeItem::lemma_count_update(a.children@, i, a2.children[i], a.children.len() as int);
        assert(open_between(d, p, j) == (a.shows_children() && open_between(d, p, j + 1))) by {
            if a.shows_children() && open_between(d, p, j + 1) {
                assert forall|t: int| j <= t < p.len() implies (#[trigger] d.node_at(p.take(t))).unwrap().shows_children() by {
                    if t > j {
                        assert(d.node_at(p.take(t)).unwrap().shows_children());
                    }
                }
            }
        }
    }
}

} // verus!
