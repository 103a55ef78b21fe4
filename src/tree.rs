use vstd::prelude::*;

verus! {

/// One node of the lazily loaded directory tree. A path is the sequence of
/// its components below the filesystem root; the root itself is the empty
/// sequence.
pub struct FileNodeItem {
    pub path: Vec<String>,
    pub is_dir: bool,
    /// The children were fetched at least once.
    pub read: bool,
    /// The user wants the children shown.
    pub open: bool,
    pub children: Vec<FileNodeItem>,
    /// Rows that this node contributes below itself when rendered.
    pub children_open_count: usize,
}

/// A change made to the node at a given path.
pub enum Change {
    /// Replace the children with a freshly read listing, and show them.
    Merge(Vec<FileNodeItem>),
    /// Flip whether the children are shown.
    Toggle,
}

impl Change {
    /// How many nodes the change may add to the tree.
    pub open spec fn extra(self) -> nat {
        match self {
            Change::Merge(kids) => kids.len() as nat,
            _ => 0,
        }
    }

    /// `after` is `before` with this change made to it (its count aside).
    pub open spec fn applied(self, before: FileNodeItem, after: FileNodeItem) -> bool {
        &&& after.path == before.path
        &&& after.is_dir == before.is_dir
        &&& match self {
            Change::Merge(kids) => after.read && after.open && after.children@ == kids@,
            Change::Toggle => after.read == before.read && after.open == !before.open
                && after.children@ == before.children@,
        }
    }
}

/// Sum over the first `k` nodes of `cs` of one row for the node plus the rows
/// it contributes, read from the stored counts.
pub open spec fn count_of(cs: Seq<FileNodeItem>, k: int) -> nat
    decreases k,
{
    if k <= 0 || k > cs.len() {
        0
    } else {
        count_of(cs, k - 1) + cs[k - 1].children_open_count as nat + 1
    }
}

/// Number of nodes in the subtrees of the first `k` nodes of `cs`.
pub open spec fn size_of(cs: Seq<FileNodeItem>, k: int) -> nat
    decreases cs, k,
{
    if k <= 0 || k > cs.len() {
        0
    } else {
        let c = cs[k - 1];
        size_of(cs, k - 1) + size_of(c.children@, c.children.len() as int) + 1
    }
}

/// Position of the first node of `cs` at or after `i` whose name is `s`.
pub open spec fn index_of_name(cs: Seq<FileNodeItem>, s: Seq<char>, i: int) -> Option<int>
    decreases cs.len() - i,
{
    if i < 0 || i >= cs.len() {
        None
    } else if cs[i].name() == s {
        Some(i)
    } else {
        index_of_name(cs, s, i + 1)
    }
}

/// One entry of a directory listing: a name below the listed directory and
/// whether it is a directory itself.
pub struct DirEntry {
    pub name: String,
    pub is_dir: bool,
}

/// The entries of `s` that are directories (`d`) or files (`!d`), in order.
pub open spec fn of_kind(s: Seq<DirEntry>, d: bool) -> Seq<DirEntry>
    decreases s.len(),
{
    if s.len() == 0 {
        seq![]
    } else {
        of_kind(s.drop_last(), d) + (if s.last().is_dir == d {
            seq![s.last()]
        } else {
            seq![]
        })
    }
}

/// Display order of a listing: directories first, then files, each group in
/// the order of the listing.
pub open spec fn arranged(s: Seq<DirEntry>) -> Seq<DirEntry> {
    of_kind(s, true) + of_kind(s, false)
}

pub proof fn lemma_of_kind_len(s: Seq<DirEntry>)
    ensures
        of_kind(s, true).len() + of_kind(s, false).len() == s.len(),
    decreases s.len(),
{
    if s.len() > 0 {
        lemma_of_kind_len(s.drop_last());
    }
}

/// Arranging a listing keeps its length.
pub proof fn lemma_arranged_len(s: Seq<DirEntry>)
    ensures
        arranged(s).len() == s.len(),
{
    lemma_of_kind_len(s);
}

/// No two entries share a name.
pub open spec fn distinct_names(s: Seq<DirEntry>) -> bool {
    forall|i: int, j: int| 0 <= i < j < s.len() ==> (#[trigger] s[i]).name@ != (#[trigger] s[j]).name@
}

/// A listing read as a map from names: each name once, in order of first
/// appearance, with the kind given by its last entry.
pub open spec fn last_wins(s: Seq<DirEntry>) -> Seq<(Seq<char>, bool)>
    decreases s.len(),
{
    if s.len() == 0 {
        seq![]
    } else {
        let r = last_wins(s.drop_last());
        let e = s.last();
        match names_index(r, e.name@, 0) {
            Some(i) => r.update(i, (e.name@, e.is_dir)),
            None => r.push((e.name@, e.is_dir)),
        }
    }
}

/// Position of the first pair of `r` at or after `i` named `n`.
pub open spec fn names_index(r: Seq<(Seq<char>, bool)>, n: Seq<char>, i: int) -> Option<int>
    decreases r.len() - i,
{
    if i < 0 || i >= r.len() {
        None
    } else if r[i].0 == n {
        Some(i)
    } else {
        names_index(r, n, i + 1)
    }
}

pub proof fn lemma_names_index(r: Seq<(Seq<char>, bool)>, n: Seq<char>, j: int)
    requires
        0 <= j,
    ensures
        names_index(r, n, j) matches Some(i) ==> j <= i < r.len() && r[i].0 == n,
        names_index(r, n, j) is None ==> forall|k: int| j <= k < r.len() ==> r[k].0 != n,
    decreases r.len() - j,
{
    if 0 <= j < r.len() && r[j].0 != n {
        lemma_names_index(r, n, j + 1);
    }
}

pub proof fn lemma_names_first(r: Seq<(Seq<char>, bool)>, n: Seq<char>, k: int)
    requires
        0 <= k < r.len(),
        r[k].0 == n,
        forall|j: int| 0 <= j < k ==> r[j].0 != n,
    ensures
        names_index(r, n, 0) == Some(k),
{
    assert forall|j: int| 0 <= j <= k implies names_index(r, n, j) == Some(k) by {
        lemma_names_from(r, n, j, k);
    }
}

proof fn lemma_names_from(r: Seq<(Seq<char>, bool)>, n: Seq<char>, j: int, k: int)
    requires
        0 <= j <= k < r.len(),
        r[k].0 == n,
        forall|t: int| 0 <= t < k ==> r[t].0 != n,
    ensures
        names_index(r, n, j) == Some(k),
    decreases k - j,
{
    if j < k {
        lemma_names_from(r, n, j + 1, k);
    }
}

/// Position of the first entry of `r` named `n`.
fn find_entry(r: &Vec<DirEntry>, n: &String) -> (hit: Option<usize>)
    ensures
        match hit {
            Some(k) => k < r@.len() && r@[k as int].name@ == n@ && forall|j: int| 0 <= j < k ==> r@[j].name@ != n@,
            None => forall|j: int| 0 <= j < r@.len() ==> r@[j].name@ != n@,
        },
{
    let mut k: usize = 0;
    while k < r.len()
        invariant
            k <= r@.len(),
            forall|j: int| 0 <= j < k ==> r@[j].name@ != n@,
        decreases r@.len() - k,
    {
        if r[k].name == *n {
            return Some(k);
        }
        k += 1;
    }
    None
}

/// The entries of a listing with repeated names folded into one, the last
/// entry of a name deciding its kind.
pub fn dedup_listing(entries: &Vec<DirEntry>) -> (r: Vec<DirEntry>)
    ensures
        distinct_names(r@),
        r@.len() == last_wins(entries@).len(),
        forall|j: int| 0 <= j < r@.len() ==> (#[trigger] r@[j]).name@ == last_wins(entries@)[j].0 && r@[j].is_dir
            == last_wins(entries@)[j].1,
{
    let ghost es = entries@;
    let mut r: Vec<DirEntry> = Vec::new();
    let mut i: usize = 0;
    while i < entries.len()
        invariant
            es == entries@,
            i <= es.len(),
            distinct_names(r@),
            r@.len() == last_wins(es.take(i as int)).len(),
            forall|j: int| 0 <= j < r@.len() ==> (#[trigger] r@[j]).name@ == last_wins(es.take(i as int))[j].0 && r@[j].is_dir
                == last_wins(es.take(i as int))[j].1,
        decreases es.len() - i,
    {
        let ghost w = last_wins(es.take(i as int));
        let e = &entries[i];
        assert(es.take(i as int + 1).drop_last() =~= es.take(i as int));
        assert(es.take(i as int + 1).last() == es[i as int]);
        let hit = find_entry(&r, &e.name);
        proof {
            lemma_names_index(w, e.name@, 0);
            if let Some(k) = hit {
                assert forall|j: int| 0 <= j < k implies w[j].0 != e.name@ by {
                    assert(r@[j].name@ == w[j].0);
                }
                assert(r@[k as int].name@ == w[k as int].0);
                lemma_names_first(w, e.name@, k as int);
            } else {
                if let Some(t) = names_index(w, e.name@, 0) {
                    assert(r@[t].name@ == w[t].0);
                }
            }
        }
        let found = hit.is_some();
        let k: usize = match hit {
            Some(k) => k,
            None => 0,
        };
        if found {
            let ghost before = r@;
            r.set(k, DirEntry { name: e.name.clone(), is_dir: e.is_dir });
            proof {
                assert(names_index(w, e.name@, 0) == Some(k as int));
                assert forall|a: int, b: int| 0 <= a < b < r@.len() implies (#[trigger] r@[a]).name@ != (#[trigger] r@[b]).name@ by {
                    assert(before[a].name@ != before[b].name@);
                }
            }
        } else {
            assert(names_index(w, e.name@, 0) is None);
            r.push(DirEntry { name: e.name.clone(), is_dir: e.is_dir });
            proof {
                assert forall|a: int, b: int| 0 <= a < b < r@.len() implies (#[trigger] r@[a]).name@ != (#[trigger] r@[b]).name@ by {
                    if b == r@.len() - 1 {
                        assert(w[a].0 != e.name@);
                    }
                }
            }
        }
        i += 1;
    }
    assert(es.take(es.len() as int) =~= es);
    r
}

/// `kids` are fresh nodes below `parent` that stand for `es`, one for one.
pub open spec fn stands_for(parent: Seq<Seq<char>>, kids: Seq<FileNodeItem>, es: Seq<DirEntry>) -> bool {
    &&& kids.len() == es.len()
    &&& forall|j: int|
        0 <= j < kids.len() ==> {
            &&& (#[trigger] kids[j]).is_fresh()
            &&& kids[j].pv() == parent.push(es[j].name@)
            &&& kids[j].is_dir == es[j].is_dir
        }
}

/// A copy of a path.
pub fn copy_path(p: &Vec<String>) -> (r: Vec<String>)
    ensures
        path_view(r) == path_view(*p),
{
    let r = copy_prefix(p, p.len());
    assert(path_view(*p).subrange(0, p.len() as int) =~= path_view(*p));
    r
}

/// A copy of the first `d` components of a path.
pub fn copy_prefix(p: &Vec<String>, d: usize) -> (r: Vec<String>)
    requires
        d <= p.len(),
    ensures
        path_view(r) == path_view(*p).subrange(0, d as int),
{
    let mut r: Vec<String> = Vec::new();
    let mut i: usize = 0;
    while i < d
        invariant
            d <= p.len(),
            i <= d,
            path_view(r) =~= path_view(*p).subrange(0, i as int),
            r@.len() == i,
        decreases p.len() - i,
    {
        let ghost before = r@;
        r.push(p[i].clone());
        proof {
            assert(r@ == before.push(p@[i as int]));
            assert forall|k: int| 0 <= k <= i implies #[trigger] path_view(r)[k] == path_view(*p)[k] by {
                if k < i {
                    assert(path_view(r)[k] == before[k]@);
                    assert(before[k]@ == path_view(*p).subrange(0, i as int)[k]);
                }
            }
            assert(path_view(r) =~= path_view(*p).subrange(0, i as int + 1));
        }
        i += 1;
    }
    r
}

/// The fresh nodes for a directory listing of `parent`, in display order.
pub fn children_from_listing(parent: &Vec<String>, entries: &Vec<DirEntry>) -> (kids: Vec<FileNodeItem>)
    requires
        distinct_names(entries@),
    ensures
        stands_for(path_view(*parent), kids@, arranged(entries@)),
        FileNodeItem::valid_children(path_view(*parent), kids@),
{
    let ghost pv = path_view(*parent);
    let ghost es = entries@;
    let mut kids: Vec<FileNodeItem> = Vec::new();
    let ghost mut idx: Seq<int> = seq![];
    let mut pass: usize = 0;
    while pass < 2
        invariant
            pass <= 2,
            distinct_names(es),
            es == entries@,
            pv == path_view(*parent),
            idx.len() == kids.len(),
            stands_for(pv, kids@, if pass == 0 {
                seq![]
            } else if pass == 1 {
                of_kind(es, true)
            } else {
                arranged(es)
            }),
            forall|a: int| 0 <= a < idx.len() ==> 0 <= #[trigger] idx[a] < es.len(),
            forall|a: int| 0 <= a < idx.len() ==> kids@[a].name() == es[#[trigger] idx[a]].name@,
            forall|a: int| 0 <= a < idx.len() ==> kids@[a].is_dir == es[#[trigger] idx[a]].is_dir,
            pass == 1 ==> forall|a: int| 0 <= a < idx.len() ==> kids@[a].is_dir,
            forall|a: int, b: int| 0 <= a < b < idx.len() ==> #[trigger] idx[a] != #[trigger] idx[b],
        decreases 2 - pass,
    {
        let want_dir = pass == 0;
        let ghost base = kids@;
        let ghost base_idx = idx;
        let mut i: usize = 0;
        while i < entries.len()
            invariant
                pass < 2,
                want_dir == (pass == 0),
                i <= entries.len(),
                distinct_names(es),
                es == entries@,
                pv == path_view(*parent),
                idx.len() == kids.len(),
                base.len() == base_idx.len(),
                base.len() <= kids.len(),
                kids@.subrange(0, base.len() as int) == base,
                idx.subrange(0, base.len() as int) == base_idx,
                stands_for(pv, kids@, (if pass == 0 {
                    seq![]
                } else {
                    of_kind(es, true)
                }) + of_kind(es.take(i as int), want_dir)),
                forall|a: int| 0 <= a < idx.len() ==> 0 <= #[trigger] idx[a] < es.len(),
                forall|a: int| 0 <= a < idx.len() ==> kids@[a].name() == es[#[trigger] idx[a]].name@,
                forall|a: int| 0 <= a < idx.len() ==> kids@[a].is_dir == es[#[trigger] idx[a]].is_dir,
                forall|a: int| base.len() <= a < idx.len() ==> #[trigger] idx[a] < i,
                forall|a: int| base.len() <= a < idx.len() ==> kids@[a].is_dir == want_dir,
                pass == 1 ==> forall|a: int| 0 <= a < base.len() ==> kids@[a].is_dir,
                pass == 0 ==> base.len() == 0,
                forall|a: int, b: int| 0 <= a < b < idx.len() ==> #[trigger] idx[a] != #[trigger] idx[b],
            decreases entries.len() - i,
        {
            let e = &entries[i];
            assert(es.take(i as int + 1).drop_last() =~= es.take(i as int));
            assert(es.take(i as int + 1).last() == es[i as int]);
            if e.is_dir == want_dir {
                let mut path = copy_path(parent);
                path.push(e.name.clone());
                let node = FileNodeItem {
                    path,
                    is_dir: e.is_dir,
                    read: false,
                    open: false,
                    children: Vec::new(),
                    children_open_count: 0,
                };
                proof {
                    assert(path_view(node.path) =~= pv.push(e.name@));
                }
                kids.push(node);
                proof {
                    idx = idx.push(i as int);
                    assert(kids@.subrange(0, base.len() as int) =~= base);
                    assert(idx.subrange(0, base.len() as int) =~= base_idx);
                }
            }
            i += 1;
        }
        assert(es.take(es.len() as int) =~= es);
        pass += 1;
    }
    proof {
        assert(arranged(es) =~= of_kind(es, true) + of_kind(es, false));
        assert forall|a: int, b: int| 0 <= a < b < kids.len() implies (#[trigger] kids@[a]).name() != (#[trigger] kids@[b]).name() by {
            assert(idx[a] != idx[b]);
        }
        assert forall|a: int| 0 <= a < kids.len() implies (#[trigger] kids@[a]).pv().len() == pv.len() + 1
            && kids@[a].pv().subrange(0, pv.len() as int) == pv by {
            assert(kids@[a].pv() == pv.push(arranged(es)[a].name@));
            assert(kids@[a].pv().subrange(0, pv.len() as int) =~= pv);
        }
    }
    kids
}

/// `a` is a prefix of `b`.
pub open spec fn is_prefix(a: Seq<Seq<char>>, b: Seq<Seq<char>>) -> bool {
    a.len() <= b.len() && b.subrange(0, a.len() as int) == a
}

/// `after` is `before` left as it was: a node on the way to a change keeps
/// its path, its flags and its children's names in order (the children off
/// the way stay equal, see the callers), and any other node is the same
/// value.
pub open spec fn kept(before: FileNodeItem, after: FileNodeItem, on_way: bool) -> bool {
    &&& after.path == before.path
    &&& after.is_dir == before.is_dir
    &&& after.read == before.read
    &&& after.open == before.open
    &&& after.children.len() == before.children.len()
    &&& forall|i: int| 0 <= i < before.children.len() ==> (#[trigger] after.children[i]).name() == before.children[i].name()
    &&& !on_way ==> after == before
}

/// The mathematical view of a path: its components as character sequences.
pub open spec fn path_view(p: Vec<String>) -> Seq<Seq<char>> {
    p@.map_values(|s: String| s@)
}

impl FileNodeItem {
    pub open spec fn pv(self) -> Seq<Seq<char>> {
        path_view(self.path)
    }

    /// Whether the children of this node are part of a rendered listing.
    pub open spec fn shows_children(self) -> bool {
        self.is_dir && self.open
    }

    /// Sum over the first `k` children of one row for the child plus the
    /// rows that the child itself contributes, read from the stored counts.
    pub open spec fn count_prefix(self, k: int) -> nat {
        count_of(self.children@, k)
    }

    /// The count that this node must hold given its flags and its children.
    pub open spec fn expected_count(self) -> nat {
        if self.shows_children() {
            self.count_prefix(self.children.len() as int)
        } else {
            0
        }
    }

    /// The rows contributed below the first `k` children, depth first.
    pub open spec fn rows_prefix(self, k: int) -> Seq<FileNodeItem>
        decreases self, k,
    {
        if k <= 0 || k > self.children.len() {
            seq![]
        } else {
            let c = self.children[k - 1];
            self.rows_prefix(k - 1) + seq![c] + (if c.shows_children() {
                c.rows_prefix(c.children.len() as int)
            } else {
                seq![]
            })
        }
    }

    /// The flattened listing below this node (the node itself excluded).
    pub open spec fn rows(self) -> Seq<FileNodeItem> {
        if self.shows_children() {
            self.rows_prefix(self.children.len() as int)
        } else {
            seq![]
        }
    }

    /// The last component of the path.
    pub open spec fn name(self) -> Seq<char> {
        self.pv().last()
    }

    /// Number of nodes in the subtrees of the first `k` children.
    pub open spec fn size_prefix(self, k: int) -> nat {
        size_of(self.children@, k)
    }

    /// Number of nodes in this subtree, the node itself included.
    pub open spec fn size(self) -> nat {
        self.size_prefix(self.children.len() as int) + 1
    }

    /// Position of the first child at or after `i` whose name is `s`.
    pub open spec fn child_index_from(self, s: Seq<char>, i: int) -> Option<int> {
        index_of_name(self.children@, s, i)
    }

    /// The node reached by following the components of `rest` downward,
    /// one child per component.
    pub open spec fn descend(self, rest: Seq<Seq<char>>) -> Option<FileNodeItem>
        decreases rest.len(),
    {
        if rest.len() == 0 {
            Some(self)
        } else {
            match self.child_index_from(rest[0], 0) {
                Some(i) => self.children[i].descend(rest.drop_first()),
                None => None,
            }
        }
    }

    /// A node as a directory listing delivers it: nothing read or shown
    /// below it yet.
    pub open spec fn is_fresh(self) -> bool {
        &&& !self.read
        &&& !self.open
        &&& self.children.len() == 0
        &&& self.children_open_count == 0
    }

    /// `kids` can become the children of the node at `parent`: fresh nodes,
    /// one component below it, with distinct names.
    pub open spec fn valid_children(parent: Seq<Seq<char>>, kids: Seq<FileNodeItem>) -> bool {
        &&& forall|i: int| 0 <= i < kids.len() ==> (#[trigger] kids[i]).is_fresh()
        &&& forall|i: int|
            0 <= i < kids.len() ==> (#[trigger] kids[i]).pv().len() == parent.len() + 1
                && kids[i].pv().subrange(0, parent.len() as int) == parent
        &&& forall|i: int, j: int|
            0 <= i < j < kids.len() ==> (#[trigger] kids[i]).name() != (#[trigger] kids[j]).name()
    }

    /// Well-formedness of a subtree: every count is consistent with its
    /// node's flags and children, every child sits one component below its
    /// parent, and no two children share a name.
    pub open spec fn wf(self) -> bool
        decreases self,
    {
        &&& self.children_open_count == self.expected_count()
        &&& forall|i: int| 0 <= i < self.children.len() ==> (#[trigger] self.children[i]).wf()
        &&& forall|i: int|
            0 <= i < self.children.len() ==> (#[trigger] self.children[i]).pv().len() == self.pv().len() + 1
                && self.children[i].pv().subrange(0, self.pv().len() as int) == self.pv()
        &&& forall|i: int, j: int|
            0 <= i < j < self.children.len() ==> (#[trigger] self.children[i]).name() != (#[trigger] self.children[j]).name()
    }

    /// Position of the first child named `seg`.
    pub fn find_child(&self, seg: &String) -> (r: Option<usize>)
        requires
            self.wf(),
        ensures
            r matches Some(i) ==> self.child_index_from(seg@, 0) == Some(i as int),
            r is None ==> self.child_index_from(seg@, 0) is None,
    {
        let mut i: usize = 0;
        while i < self.children.len()
            invariant
                self.wf(),
                i <= self.children.len(),
                self.child_index_from(seg@, 0) == self.child_index_from(seg@, i as int),
            decreases self.children.len() - i,
        {
            let c = &self.children[i];
            proof {
                assert(c.pv().len() == self.pv().len() + 1);
            }
            let last = c.path.len() - 1;
            if c.path[last] == *seg {
                proof {
                    assert(c.name() == c.path[last as int]@);
                }
                return Some(i);
            }
            proof {
                assert(c.name() == c.path[last as int]@);
            }
            i += 1;
        }
        None
    }

    /// The count that this node's flags and its children's stored counts
    /// call for.
    pub fn recount(&self) -> (r: usize)
        requires
            self.expected_count() <= usize::MAX,
        ensures
            r == self.expected_count(),
    {
        if !(self.is_dir && self.open) {
            return 0;
        }
        let ghost len = self.children.len() as int;
        let mut sum: usize = 0;
        let mut i: usize = 0;
        while i < self.children.len()
            invariant
                len == self.children.len(),
                self.shows_children(),
                i <= len,
                sum == self.count_prefix(i as int),
                self.count_prefix(len) <= usize::MAX,
            decreases len - i,
        {
            proof {
                self.lemma_count_prefix_mono(i as int + 1, len);
            }
            sum = sum + self.children[i].children_open_count + 1;
            i += 1;
        }
        sum
    }

    /// Recomputes this node's count from its children's stored counts: the
    /// bottom-up repair step after a change below it.
    pub fn update_count(&mut self)
        requires
            old(self).expected_count() <= usize::MAX,
        ensures
            final(self).children_open_count == old(self).expected_count(),
            final(self).path == old(self).path,
            final(self).is_dir == old(self).is_dir,
            final(self).read == old(self).read,
            final(self).open == old(self).open,
            final(self).children == old(self).children,
    {
        let c = self.recount();
        self.children_open_count = c;
    }

    /// Looks up the row at offset `k` of the flattened listing below this
    /// node, skipping whole subtrees by their stored counts.
    pub fn get_item_children(&self, k: usize) -> (r: Option<&FileNodeItem>)
        requires
            self.wf(),
        ensures
            match r {
                Some(n) => k < self.rows().len() && *n == self.rows()[k as int],
                None => k >= self.rows().len(),
            },
        decreases self,
    {
        proof {
            self.lemma_rows_len();
        }
        if !(self.is_dir && self.open) {
            return None;
        }
        let ghost len = self.children.len() as int;
        let mut i: usize = 0;
        let mut offset: usize = 0;
        while i < self.children.len()
            invariant
                self.wf(),
                self.shows_children(),
                len == self.children.len(),
                i <= len,
                offset == self.count_prefix(i as int),
                offset <= k,
                self.rows().len() == self.children_open_count,
            decreases len - i,
        {
            let c = &self.children[i];
            proof {
                self.lemma_count_prefix_mono(i as int + 1, len);
                self.lemma_rows_prefix_extends(i as int + 1, len);
                self.lemma_rows_prefix_len(i as int + 1);
                c.lemma_rows_len();
                assert(self.children[i as int].wf());
            }
            if k - offset <= c.children_open_count {
                proof {
                    let rp = self.rows_prefix(i as int + 1);
                    assert(self.rows()[k as int] == rp[k as int]);
                    assert(rp == self.rows_prefix(i as int) + seq![*c] + c.rows());
                    self.lemma_rows_prefix_len(i as int);
                }
                if k == offset {
                    return Some(c);
                }
                return c.get_item_children(k - offset - 1);
            }
            offset = offset + c.children_open_count + 1;
            i += 1;
        }
        None
    }

    /// Makes `change` to the node reached from this one by the components
    /// of `target` from `depth` on, then repairs the counts of that node and
    /// of every node on the way back up, child before parent.
    pub fn apply_at(&mut self, target: &Vec<String>, depth: usize, change: Change)
        requires
            old(self).wf(),
            old(self).descend(path_view(*target).subrange(depth as int, target.len() as int)) is Some,
            depth <= target.len(),
            old(self).pv() == path_view(*target).subrange(0, depth as int),
            change matches Change::Merge(kids) ==> Self::valid_children(path_view(*target), kids@),
            old(self).size() + change.extra() <= usize::MAX,
        ensures
            change.applied(
                old(self).descend(path_view(*target).subrange(depth as int, target.len() as int)).unwrap(),
                final(self).descend(path_view(*target).subrange(depth as int, target.len() as int)).unwrap(),
            ),
            final(self).descend(path_view(*target).subrange(depth as int, target.len() as int)) is Some,
            final(self).wf(),
            final(self).path == old(self).path,
            final(self).size() <= old(self).size() + change.extra(),
            final(self).size() + old(self).descend(path_view(*target).subrange(depth as int, target.len() as int)).unwrap().size()
                == old(self).size() + final(self).descend(path_view(*target).subrange(depth as int, target.len() as int)).unwrap().size(),
            depth < target.len() ==> final(self).is_dir == old(self).is_dir && final(self).read
                == old(self).read && final(self).open == old(self).open,
            forall|q: Seq<Seq<char>>|
                #[trigger] old(self).descend(q) is Some && !is_prefix(
                    path_view(*target).subrange(depth as int, target.len() as int),
                    q,
                ) ==> final(self).descend(q) is Some && kept(
                    old(self).descend(q).unwrap(),
                    final(self).descend(q).unwrap(),
                    is_prefix(q, path_view(*target).subrange(depth as int, target.len() as int)),
                ),
        decreases target.len() - depth,
    {
        let ghost tv = path_view(*target);
        let ghost rest = tv.subrange(depth as int, target.len() as int);
        if depth == target.len() {
            assert(rest.len() == 0);
            let ghost ch = change;
            proof {
                self.lemma_expected_le_size();
            }
            match change {
                Change::Merge(kids) => {
                    proof {
                        FileNodeItem::lemma_fresh_size(kids@, kids@.len() as int);
                    }
                    self.read = true;
                    self.open = true;
                    self.children = kids;
                    proof {
                        self.lemma_expected_le_size();
                        assert(self.size() == kids@.len() + 1);
                        assert(tv.subrange(0, depth as int) =~= tv);
                        assert forall|i: int| 0 <= i < self.children.len() implies (#[trigger] self.children[i]).wf() by {
                            assert(self.children[i].is_fresh());
                            assert(self.children[i].expected_count() == 0);
                        }
                    }
                },
                Change::Toggle => {
                    self.open = !self.open;
                    proof {
                        assert(self.children == old(self).children);
                        assert forall|i: int| 0 <= i < self.children.len() implies (#[trigger] self.children[i]).wf() by {
                            assert(old(self).children[i].wf());
                        }
                        self.lemma_expected_le_size();
                    }
                },
            }
            self.update_count();
            proof {
                assert(ch.applied(old(self).descend(rest).unwrap(), self.descend(rest).unwrap()));
                assert forall|q: Seq<Seq<char>>| is_prefix(rest, q) by {
                    assert(q.subrange(0, 0) =~= rest);
                }
            }
            return;
        }
        let ghost seg = target[depth as int]@;
        assert(rest[0] == seg);
        assert(rest.drop_first() =~= tv.subrange(depth as int + 1, target.len() as int));
        match self.find_child(&target[depth]) {
            None => {},
            Some(i) => {
                let ghost old_self = *self;
                let ghost old_child = self.children[i as int];
                proof {
                    self.lemma_child_index_from(seg, 0, i as int);
                    assert(old_child.wf());
                    assert(old_child.pv() =~= tv.subrange(0, depth as int + 1));
                    self.lemma_child_size_le(i as int, self.children.len() as int);
                }
                self.children[i].apply_at(target, depth + 1, change);
                let ghost new_child = self.children[i as int];
                proof {
                    assert(self.children@ == old_self.children@.update(i as int, new_child));
                    old_self.lemma_size_update(*self, i as int, new_child, self.children.len() as int);
                    assert(new_child.pv() == old_child.pv());
                    assert forall|a: int| 0 <= a < self.children.len() implies (#[trigger] old_self.children[a]).name() == self.children[a].name() by {
                        if a != i {
                            assert(self.children[a] == old_self.children[a]);
                        }
                    }
                    old_self.lemma_same_names(*self, seg, 0);
                    assert forall|j: int| 0 <= j < self.children.len() implies (#[trigger] self.children[j]).wf() by {
                        if j != i {
                            assert(self.children[j] == old_self.children[j]);
                        }
                    }
                    self.lemma_expected_le_size();
                }
                self.update_count();
                proof {
                    assert(self.children[i as int] == new_child);
                    assert forall|j: int| 0 <= j < self.children.len() implies (#[trigger] self.children[j]).wf() by {
                        if j != i {
                            assert(self.children[j] == old_self.children[j]);
                        }
                    }
                    assert forall|a: int, b: int| 0 <= a < b < self.children.len() implies (#[trigger] self.children[a]).name() != (#[trigger] self.children[b]).name() by {
                        assert(self.children[a].name() == old_self.children[a].name());
                        assert(self.children[b].name() == old_self.children[b].name());
                    }
                    assert forall|j: int| 0 <= j < self.children.len() implies (#[trigger] self.children[j]).pv().len() == self.pv().len() + 1
                        && self.children[j].pv().subrange(0, self.pv().len() as int) == self.pv() by {
                        assert(self.children[j].pv() == old_self.children[j].pv());
                    }
                    let r1 = rest.drop_first();
                    assert(old_self.descend(rest) == old_child.descend(r1));
                    assert(self.descend(rest) == new_child.descend(r1));
                    assert forall|q: Seq<Seq<char>>|
                        #[trigger] old_self.descend(q) is Some && !is_prefix(rest, q) implies self.descend(q) is Some
                            && kept(old_self.descend(q).unwrap(), self.descend(q).unwrap(), is_prefix(q, rest)) by {
                        if q.len() == 0 {
                            assert(rest.subrange(0, 0) =~= q);
                            assert(is_prefix(q, rest));
                            assert forall|a: int| 0 <= a < old_self.children.len() implies (#[trigger] self.children[a]).name() == old_self.children[a].name() by {
                                if a != i {
                                    assert(self.children[a] == old_self.children[a]);
                                }
                            }
                        } else {
                            let j = old_self.child_index_from(q[0], 0).unwrap();
                            old_self.lemma_child_index_from(q[0], 0, j);
                            assert forall|a: int| 0 <= a < self.children.len() implies (#[trigger] old_self.children[a]).name() == self.children[a].name() by {
                                if a != i {
                                    assert(self.children[a] == old_self.children[a]);
                                }
                            }
                            old_self.lemma_same_names(*self, q[0], 0);
                            assert(self.child_index_from(q[0], 0) == Some(j));
                            if q[0] != rest[0] {
                                assert(j != i);
                                assert(self.children[j] == old_self.children[j]);
                                assert(!is_prefix(q, rest)) by {
                                    if is_prefix(q, rest) {
                                        assert(rest.subrange(0, q.len() as int)[0] == rest[0]);
                                    }
                                }
                            } else {
                                old_self.lemma_unique_name(i as int, 0);
                                assert(j == i);
                                let q1 = q.drop_first();
                                assert(old_child.descend(q1) is Some);
                                assert(!is_prefix(r1, q1)) by {
                                    if is_prefix(r1, q1) {
                                        assert forall|t: int| 0 <= t < rest.len() implies #[trigger] q[t] == rest[t] by {
                                            if t > 0 {
                                                assert(q1.subrange(0, r1.len() as int)[t - 1] == r1[t - 1]);
                                            }
                                        }
                                        assert(q.subrange(0, rest.len() as int) =~= rest);
                                    }
                                }
                                assert(is_prefix(q1, r1) == is_prefix(q, rest)) by {
                                    if is_prefix(q1, r1) {
                                        assert forall|t: int| 0 <= t < q.len() implies #[trigger] rest[t] == q[t] by {
                                            if t > 0 {
                                                assert(r1.subrange(0, q1.len() as int)[t - 1] == q1[t - 1]);
                                            }
                                        }
                                        assert(rest.subrange(0, q.len() as int) =~= q);
                                    }
                                    if is_prefix(q, rest) {
                                        assert(r1.subrange(0, q1.len() as int) =~= q1);
                                    }
                                }
                            }
                        }
                    }
                }
            },
        }
    }

    /// The node reached from this one by the components of `target` from
    /// `depth` on.
    pub fn get_node_at(&self, target: &Vec<String>, depth: usize) -> (r: Option<&FileNodeItem>)
        requires
            self.wf(),
            depth <= target.len(),
        ensures
            match r {
                Some(n) => self.descend(path_view(*target).subrange(depth as int, target.len() as int)) == Some(*n),
                None => self.descend(path_view(*target).subrange(depth as int, target.len() as int)) is None,
            },
            r matches Some(n) ==> n.wf(),
        decreases target.len() - depth,
    {
        let ghost tv = path_view(*target);
        let ghost rest = tv.subrange(depth as int, target.len() as int);
        if depth == target.len() {
            assert(rest.len() == 0);
            return Some(self);
        }
        assert(rest[0] == target[depth as int]@);
        assert(rest.drop_first() =~= tv.subrange(depth as int + 1, target.len() as int));
        match self.find_child(&target[depth]) {
            None => None,
            Some(i) => {
                proof {
                    self.lemma_child_index_from(target[depth as int]@, 0, i as int);
                    assert(self.children[i as int].wf());
                }
                self.children[i].get_node_at(target, depth + 1)
            },
        }
    }

    /// A node reached from a well-formed one is well-formed, and its path
    /// is the start path extended by the components followed.
    pub proof fn lemma_descend(self, rest: Seq<Seq<char>>)
        requires
            self.wf(),
            self.descend(rest) is Some,
        ensures
            self.descend(rest).unwrap().wf(),
            self.descend(rest).unwrap().pv() == self.pv() + rest,
        decreases rest.len(),
    {
        if rest.len() == 0 {
            assert(self.pv() + rest =~= self.pv());
        } else {
            let i = self.child_index_from(rest[0], 0).unwrap();
            self.lemma_child_index_from(rest[0], 0, i);
            let c = self.children[i];
            assert(c.wf());
            c.lemma_descend(rest.drop_first());
            assert(c.pv() =~= self.pv().push(rest[0]));
            assert(self.pv() + rest =~= self.pv().push(rest[0]) + rest.drop_first());
        }
    }

    /// Every node on the way to a reachable node is reachable too.
    pub proof fn lemma_descend_prefix(self, rest: Seq<Seq<char>>, j: int)
        requires
            self.descend(rest) is Some,
            0 <= j <= rest.len(),
        ensures
            self.descend(rest.take(j)) is Some,
        decreases rest.len(),
    {
        if j > 0 {
            let i = self.child_index_from(rest[0], 0).unwrap();
            let c = self.children[i];
            c.lemma_descend_prefix(rest.drop_first(), j - 1);
            assert(rest.take(j)[0] == rest[0]);
            assert(rest.take(j).drop_first() =~= rest.drop_first().take(j - 1));
        } else {
            assert(rest.take(j).len() == 0);
        }
    }

    pub proof fn lemma_child_index_from(self, s: Seq<char>, j: int, i: int)
        requires
            self.child_index_from(s, j) == Some(i),
        ensures
            j <= i < self.children.len(),
            self.children[i].name() == s,
        decreases self.children.len() - j,
    {
        if 0 <= j < self.children.len() && self.children[j].name() != s {
            self.lemma_child_index_from(s, j + 1, i);
        }
    }

    /// Two nodes whose children carry the same names find the same child.
    pub proof fn lemma_same_names(self, other: FileNodeItem, s: Seq<char>, j: int)
        requires
            self.children.len() == other.children.len(),
            forall|k: int| 0 <= k < self.children.len() ==> (#[trigger] self.children[k]).name() == other.children[k].name(),
        ensures
            self.child_index_from(s, j) == other.child_index_from(s, j),
        decreases self.children.len() - j,
    {
        if 0 <= j < self.children.len() {
            assert(self.children[j].name() == other.children[j].name());
            self.lemma_same_names(other, s, j + 1);
        }
    }

    /// Replacing the child at `i` changes the node count by the difference
    /// of the two subtrees' sizes.
    pub proof fn lemma_size_update(self, other: FileNodeItem, i: int, c: FileNodeItem, k: int)
        requires
            0 <= i < self.children.len(),
            other.children@ == self.children@.update(i, c),
            0 <= k <= self.children.len(),
        ensures
            other.size_prefix(k) + (if k > i { self.children[i].size() } else { 0 }) == self.size_prefix(k) + (
            if k > i {
                c.size()
            } else {
                0
            }),
        decreases k,
    {
        if k > 0 {
            self.lemma_size_update(other, i, c, k - 1);
            if k - 1 != i {
                assert(other.children[k - 1] == self.children[k - 1]);
            } else {
                assert(other.children[k - 1] == c);
            }
        }
    }

    /// Replacing one child changes the first `k` children's rows by the
    /// difference of the two children's counts.
    pub proof fn lemma_count_update(cs: Seq<FileNodeItem>, i: int, c: FileNodeItem, k: int)
        requires
            0 <= i < cs.len(),
            0 <= k <= cs.len(),
        ensures
            count_of(cs.update(i, c), k) + (if k > i { cs[i].children_open_count as int } else { 0 }) == count_of(cs, k) + (
            if k > i {
                c.children_open_count as int
            } else {
                0
            }),
        decreases k,
    {
        if k > 0 {
            FileNodeItem::lemma_count_update(cs, i, c, k - 1);
        }
    }

    /// A node reached from this one is no larger than this one.
    pub proof fn lemma_descend_size(self, rest: Seq<Seq<char>>)
        requires
            self.descend(rest) is Some,
        ensures
            self.descend(rest).unwrap().size() <= self.size(),
        decreases rest.len(),
    {
        if rest.len() > 0 {
            let i = self.child_index_from(rest[0], 0).unwrap();
            self.lemma_child_index_from(rest[0], 0, i);
            self.lemma_child_size_le(i, self.children.len() as int);
            self.children[i].lemma_descend_size(rest.drop_first());
        }
    }

    /// Number of nodes in this subtree, the node itself included.
    pub fn subtree_size(&self) -> (r: usize)
        requires
            self.size() <= usize::MAX,
        ensures
            r == self.size(),
        decreases self,
    {
        let ghost len = self.children.len() as int;
        let mut sum: usize = 1;
        let mut i: usize = 0;
        while i < self.children.len()
            invariant
                len == self.children.len(),
                i <= len,
                sum == self.size_prefix(i as int) + 1,
                self.size() <= usize::MAX,
            decreases len - i,
        {
            proof {
                self.lemma_size_prefix_mono(i as int + 1, len);
                self.lemma_child_size_le(i as int, len);
            }
            let c = self.children[i].subtree_size();
            sum = sum + c;
            i += 1;
        }
        sum
    }

    pub proof fn lemma_size_prefix_mono(self, i: int, j: int)
        requires
            0 <= i <= j <= self.children.len(),
        ensures
            self.size_prefix(i) <= self.size_prefix(j),
        decreases j - i,
    {
        if i < j {
            self.lemma_size_prefix_mono(i, j - 1);
        }
    }

    pub proof fn lemma_child_size_le(self, i: int, k: int)
        requires
            0 <= i < k <= self.children.len(),
        ensures
            self.children[i].size() <= self.size_prefix(k),
        decreases k,
    {
        if k - 1 > i {
            self.lemma_child_size_le(i, k - 1);
        }
    }

    /// The rows below the first `k` children never outnumber their nodes.
    pub proof fn lemma_count_le_size(self, k: int)
        requires
            forall|i: int| 0 <= i < self.children.len() ==> (#[trigger] self.children[i]).wf(),
            0 <= k <= self.children.len(),
        ensures
            self.count_prefix(k) <= self.size_prefix(k),
        decreases self, k,
    {
        if k > 0 {
            self.lemma_count_le_size(k - 1);
            let c = self.children[k - 1];
            assert(c.wf());
            c.lemma_count_le_size(c.children.len() as int);
        }
    }

    pub proof fn lemma_expected_le_size(self)
        requires
            forall|i: int| 0 <= i < self.children.len() ==> (#[trigger] self.children[i]).wf(),
        ensures
            self.expected_count() + 1 <= self.size(),
    {
        self.lemma_count_le_size(self.children.len() as int);
    }

    pub proof fn lemma_fresh_size(kids: Seq<FileNodeItem>, k: int)
        requires
            forall|i: int| 0 <= i < kids.len() ==> (#[trigger] kids[i]).is_fresh(),
            0 <= k <= kids.len(),
        ensures
            size_of(kids, k) == k,
        decreases k,
    {
        if k > 0 {
            FileNodeItem::lemma_fresh_size(kids, k - 1);
            assert(kids[k - 1].is_fresh());
            assert(size_of(kids[k - 1].children@, 0) == 0);
        }
    }

    /// Every row below a well-formed node lies deeper than the node.
    pub proof fn lemma_rows_depth(self, k: int)
        requires
            self.wf(),
            0 <= k <= self.children.len(),
        ensures
            forall|j: int| 0 <= j < self.rows_prefix(k).len() ==> (#[trigger] self.rows_prefix(k)[j]).pv().len() > self.pv().len(),
        decreases self, k,
    {
        if k > 0 {
            self.lemma_rows_prefix_extends(k - 1, k);
            self.lemma_rows_depth(k - 1);
            let c = self.children[k - 1];
            assert(c.wf());
            c.lemma_rows_depth(c.children.len() as int);
            let a = self.rows_prefix(k - 1);
            let b = if c.shows_children() { c.rows_prefix(c.children.len() as int) } else { seq![] };
            assert(self.rows_prefix(k) == a + seq![c] + b);
            assert forall|j: int| 0 <= j < self.rows_prefix(k).len() implies (#[trigger] self.rows_prefix(k)[j]).pv().len() > self.pv().len() by {
                if j < a.len() {
                    assert(self.rows_prefix(k)[j] == a[j]);
                } else if j == a.len() {
                    assert(self.rows_prefix(k)[j] == c);
                } else {
                    assert(self.rows_prefix(k)[j] == b[j - a.len() - 1]);
                }
            }
        }
    }

    /// A name held by exactly one child, at `i`, finds that child.
    pub proof fn lemma_unique_name(self, i: int, j: int)
        requires
            self.wf(),
            0 <= j <= i < self.children.len(),
        ensures
            self.child_index_from(self.children[i].name(), j) == Some(i),
        decreases i - j,
    {
        if j < i {
            assert(self.children[j].name() != self.children[i].name());
            self.lemma_unique_name(i, j + 1);
        }
    }

    /// Following `a` and then `b` is following `a + b`.
    pub proof fn lemma_descend_concat(self, a: Seq<Seq<char>>, b: Seq<Seq<char>>)
        requires
            self.descend(a) is Some,
        ensures
            self.descend(a + b) == self.descend(a).unwrap().descend(b),
        decreases a.len(),
    {
        if a.len() == 0 {
            assert(a + b =~= b);
        } else {
            let i = self.child_index_from(a[0], 0).unwrap();
            self.children[i].lemma_descend_concat(a.drop_first(), b);
            assert((a + b)[0] == a[0]);
            assert((a + b).drop_first() =~= a.drop_first() + b);
        }
    }

    /// Every row below a well-formed node is reached from it by the
    /// components of the row's path past the node's own.
    pub proof fn lemma_rows_reachable(self, k: int)
        requires
            self.wf(),
            0 <= k <= self.children.len(),
        ensures
            forall|j: int| 0 <= j < self.rows_prefix(k).len() ==> {
                let r = #[trigger] self.rows_prefix(k)[j];
                &&& r.pv().len() > self.pv().len()
                &&& r.pv().subrange(0, self.pv().len() as int) == self.pv()
                &&& self.descend(r.pv().subrange(self.pv().len() as int, r.pv().len() as int)) == Some(r)
            },
        decreases self, k,
    {
        if k > 0 {
            self.lemma_rows_reachable(k - 1);
            let c = self.children[k - 1];
            assert(c.wf());
            c.lemma_rows_reachable(c.children.len() as int);
            self.lemma_unique_name(k - 1, 0);
            let a = self.rows_prefix(k - 1);
            let b = if c.shows_children() { c.rows_prefix(c.children.len() as int) } else { seq![] };
            assert(self.rows_prefix(k) == a + seq![c] + b);
            let sl = self.pv().len() as int;
            assert(c.pv().len() == sl + 1);
            assert(c.pv()[sl] == c.name());
            assert forall|j: int| 0 <= j < self.rows_prefix(k).len() implies {
                let r = #[trigger] self.rows_prefix(k)[j];
                &&& r.pv().len() > self.pv().len()
                &&& r.pv().subrange(0, self.pv().len() as int) == self.pv()
                &&& self.descend(r.pv().subrange(self.pv().len() as int, r.pv().len() as int)) == Some(r)
            } by {
                let r = self.rows_prefix(k)[j];
                if j < a.len() {
                    assert(r == a[j]);
                } else if j == a.len() {
                    assert(r == c);
                    let rest = c.pv().subrange(sl, sl + 1);
                    assert(rest[0] == c.name());
                    assert(rest.drop_first().len() == 0);
                    assert(c.descend(rest.drop_first()) == Some(c));
                    assert(self.child_index_from(rest[0], 0) == Some(k - 1));
                    assert(self.descend(rest) == Some(c));
                    assert(c.pv().subrange(0, sl) == self.pv());
                } else {
                    assert(r == b[j - a.len() - 1]);
                    let cl = c.pv().len() as int;
                    assert(r.pv().subrange(0, cl) == c.pv());
                    assert(r.pv().subrange(0, sl) =~= c.pv().subrange(0, sl));
                    let rest = r.pv().subrange(sl, r.pv().len() as int);
                    assert(rest[0] == r.pv().subrange(0, cl)[sl]);
                    assert(rest.drop_first() =~= r.pv().subrange(cl, r.pv().len() as int));
                    assert(c.descend(rest.drop_first()) == Some(r));
                    assert(rest[0] == c.name());
                    assert(self.child_index_from(rest[0], 0) == Some(k - 1));
                    assert(self.descend(rest) == Some(r));
                    assert(c.pv().subrange(0, sl) == self.pv());
                    assert(r.pv().subrange(0, sl) == self.pv());
                }
            }
        }
    }

    /// Every row below a well-formed node is well-formed.
    pub proof fn lemma_rows_wf(self, k: int)
        requires
            self.wf(),
            0 <= k <= self.children.len(),
        ensures
            forall|j: int| 0 <= j < self.rows_prefix(k).len() ==> (#[trigger] self.rows_prefix(k)[j]).wf(),
        decreases self, k,
    {
        if k > 0 {
            self.lemma_rows_wf(k - 1);
            let c = self.children[k - 1];
            assert(c.wf());
            c.lemma_rows_wf(c.children.len() as int);
            let a = self.rows_prefix(k - 1);
            let b = if c.shows_children() { c.rows_prefix(c.children.len() as int) } else { seq![] };
            assert(self.rows_prefix(k) == a + seq![c] + b);
            assert forall|j: int| 0 <= j < self.rows_prefix(k).len() implies (#[trigger] self.rows_prefix(k)[j]).wf() by {
                if j < a.len() {
                    assert(self.rows_prefix(k)[j] == a[j]);
                } else if j == a.len() {
                    assert(self.rows_prefix(k)[j] == c);
                } else {
                    assert(self.rows_prefix(k)[j] == b[j - a.len() - 1]);
                }
            }
        }
    }

    /// The flattened listing has exactly as many rows as the stored count.
    pub proof fn lemma_rows_len(self)
        requires
            self.wf(),
        ensures
            self.rows().len() == self.children_open_count,
        decreases self,
    {
        if self.shows_children() {
            self.lemma_rows_prefix_len(self.children.len() as int);
        }
    }

    pub proof fn lemma_rows_prefix_len(self, k: int)
        requires
            self.wf(),
            0 <= k <= self.children.len(),
        ensures
            self.rows_prefix(k).len() == self.count_prefix(k),
        decreases self, k,
    {
        if k > 0 {
            self.lemma_rows_prefix_len(k - 1);
            let c = self.children[k - 1];
            assert(c.wf());
            c.lemma_rows_len();
        }
    }

    pub proof fn lemma_count_prefix_mono(self, i: int, j: int)
        requires
            0 <= i <= j <= self.children.len(),
        ensures
            self.count_prefix(i) <= self.count_prefix(j),
        decreases j - i,
    {
        if i < j {
            self.lemma_count_prefix_mono(i, j - 1);
        }
    }

    pub proof fn lemma_rows_prefix_extends(self, i: int, j: int)
        requires
            0 <= i <= j <= self.children.len(),
        ensures
            self.rows_prefix(i).len() <= self.rows_prefix(j).len(),
            self.rows_prefix(j).subrange(0, self.rows_prefix(i).len() as int) == self.rows_prefix(i),
        decreases j - i,
    {
        if i < j {
            self.lemma_rows_prefix_extends(i, j - 1);
            let a = self.rows_prefix(j - 1);
            let b = self.rows_prefix(j);
            assert(b.subrange(0, a.len() as int) =~= a);
            assert(b.subrange(0, self.rows_prefix(i).len() as int) =~= a.subrange(0, self.rows_prefix(i).len() as int));
        } else {
            assert(self.rows_prefix(j).subrange(0, self.rows_prefix(i).len() as int) =~= self.rows_prefix(i));
        }
    }
}

} // verus!
