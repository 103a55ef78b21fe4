use vstd::prelude::*;

use crate::tree::{
    arranged, copy_path, copy_prefix, children_from_listing, distinct_names, path_view,
    stands_for, size_of, count_of, lemma_arranged_len, is_prefix, kept, Change, DirEntry, FileNodeItem,
};

verus! {

/// The state of one picker session: the tree of visited directories, the
/// home directory, the directory whose listing is shown, and the selected
/// row of that listing.
pub struct FilePickerData {
    pub active: bool,
    pub root: FileNodeItem,
    pub home: Vec<String>,
    pub pwd: Vec<String>,
    /// Offset of the selected row in the listing of `pwd`.
    pub index: Option<usize>,
    /// The number of nodes in the tree.
    pub node_count: usize,
}

/// `node` is the spine from `hv.subrange(0, d)` down to the end of `hv`:
/// one expanded, unread directory per component, ending in a closed one.
pub open spec fn spine_ok(node: FileNodeItem, hv: Seq<Seq<char>>, d: int) -> bool {
    forall|j: int| d <= j <= hv.len() ==> #[trigger] spine_at(node, hv, d, j)
}

/// The node reached from `node` (which stands at `hv.subrange(0, d)`) by the
/// components of `hv` from `d` to `j` is the spine's node there.
pub open spec fn spine_at(node: FileNodeItem, hv: Seq<Seq<char>>, d: int, j: int) -> bool {
    match node.descend(hv.subrange(d, j)) {
        Some(m) => {
            &&& m.pv() == hv.subrange(0, j)
            &&& m.is_dir
            &&& !m.read
            &&& m.open == (j < hv.len())
            &&& m.children.len() == (if j < hv.len() { 1int } else { 0int })
        },
        None => false,
    }
}

/// A change at `p` left every node of `before` outside the subtree at `p`
/// in place: the nodes on the way to `p` keep their paths and flags, and
/// all others are unchanged.
pub open spec fn framed(before: FilePickerData, after: FilePickerData, p: Seq<Seq<char>>) -> bool {
    forall|q: Seq<Seq<char>>|
        #[trigger] before.node_at(q) is Some && !is_prefix(p, q) ==> after.node_at(q) is Some && kept(
            before.node_at(q).unwrap(),
            after.node_at(q).unwrap(),
            is_prefix(q, p),
        )
}

/// `after` is `before` with the listing `es` merged into it.
pub open spec fn merged(before: FileNodeItem, after: Option<FileNodeItem>, p: Seq<Seq<char>>, es: Seq<DirEntry>) -> bool {
    match after {
        Some(n) => {
            &&& n.path == before.path
            &&& n.is_dir == before.is_dir
            &&& n.read
            &&& n.open
            &&& n.children.len() == es.len()
            &&& stands_for(p, n.children@, arranged(es))
        },
        None => false,
    }
}

impl FilePickerData {
    pub open spec fn wf(self) -> bool {
        &&& self.root.wf()
        &&& self.root.pv().len() == 0
        &&& self.root.is_dir
        &&& self.root.size() == self.node_count
    }

    /// The node at `p`, reached from the root one component at a time.
    pub open spec fn node_at(self, p: Seq<Seq<char>>) -> Option<FileNodeItem> {
        self.root.descend(p)
    }

    /// The rows of the listing shown: the flattened open subtree below the
    /// current directory, or nothing while that directory is not reachable.
    pub open spec fn listing(self) -> Seq<FileNodeItem> {
        match self.node_at(path_view(self.pwd)) {
            Some(n) => n.rows(),
            None => seq![],
        }
    }

    /// The listing has no more rows than a count can hold.
    pub proof fn lemma_listing_len(self)
        requires
            self.wf(),
        ensures
            self.listing().len() <= usize::MAX,
    {
        if self.node_at(path_view(self.pwd)) is Some {
            self.root.lemma_descend(path_view(self.pwd));
            self.node_at(path_view(self.pwd)).unwrap().lemma_rows_len();
        }
    }

    /// The node shown at row `k` of the listing.
    pub fn row_node(&self, k: usize) -> (r: Option<&FileNodeItem>)
        requires
            self.wf(),
        ensures
            match r {
                Some(n) => k < self.listing().len() && *n == self.listing()[k as int],
                None => k >= self.listing().len(),
            },
            r matches Some(n) ==> n.pv().len() > path_view(self.pwd).len() && n.wf(),
            r matches Some(n) ==> self.node_at(n.pv()) == Some(*n),
    {
        match self.get_file_node(&self.pwd) {
            None => None,
            Some(dir) => {
                let r = dir.get_item_children(k);
                proof {
                    self.root.lemma_descend(path_view(self.pwd));
                    assert(dir.pv() =~= path_view(self.pwd));
                    if dir.shows_children() {
                        dir.lemma_rows_depth(dir.children.len() as int);
                        dir.lemma_rows_wf(dir.children.len() as int);
                        dir.lemma_rows_reachable(dir.children.len() as int);
                        if r is Some {
                            let n = r.unwrap();
                            let a = path_view(self.pwd);
                            let rest = n.pv().subrange(a.len() as int, n.pv().len() as int);
                            self.root.lemma_descend_concat(a, rest);
                            assert(a + rest =~= n.pv());
                        }
                    }
                }
                r
            },
        }
    }

    /// A session rooted at the filesystem root, nothing read yet.
    pub fn new() -> (r: Self)
        ensures
            r.wf(),
            !r.active,
            path_view(r.home).len() == 0,
            path_view(r.pwd).len() == 0,
            r.index is None,
            r.node_count == 1,
            r.root.children.len() == 0,
            !r.root.read,
            !r.root.open,
    {
        let root = FileNodeItem {
            path: Vec::new(),
            is_dir: true,
            read: false,
            open: false,
            children: Vec::new(),
            children_open_count: 0,
        };
        proof {
            assert(path_view(root.path) =~= Seq::<Seq<char>>::empty());
            assert(root.size() == 1);
        }
        FilePickerData {
            active: false,
            root,
            home: Vec::new(),
            pwd: Vec::new(),
            index: None,
            node_count: 1,
        }
    }

    /// Replaces the tree with the spine from the filesystem root down to
    /// `home`, and shows `home`.
    pub fn init_home(&mut self, home: &Vec<String>)
        requires
            home.len() < usize::MAX,
        ensures
            final(self).wf(),
            path_view(final(self).home) == path_view(*home),
            path_view(final(self).pwd) == path_view(*home),
            final(self).root.size() == home.len() + 1,
            final(self).node_count == home.len() + 1,
            spine_ok(final(self).root, path_view(*home), 0),
            final(self).node_at(path_view(*home)) is Some,
            final(self).node_at(path_view(*home)).unwrap().is_dir,
            !final(self).node_at(path_view(*home)).unwrap().open,
            !final(self).node_at(path_view(*home)).unwrap().read,
            final(self).node_at(path_view(*home)).unwrap().children.len() == 0,
            forall|s: Seq<char>| #[trigger] final(self).node_at(path_view(*home).push(s)) is None,
            final(self).active == old(self).active,
            final(self).index == old(self).index,
    {
        let ghost hv = path_view(*home);
        let n = home.len();
        let mut current = FileNodeItem {
            path: copy_path(home),
            is_dir: true,
            read: false,
            open: false,
            children: Vec::new(),
            children_open_count: 0,
        };
        proof {
            assert(hv.subrange(0, n as int) =~= hv);
            assert(current.size() == 1);
            assert forall|j: int| n <= j <= hv.len() implies #[trigger] spine_at(current, hv, n as int, j) by {
                assert(hv.subrange(n as int, j).len() == 0);
            }
        }
        let mut d: usize = n;
        while d > 0
            invariant
                n == home.len(),
                n < usize::MAX,
                hv == path_view(*home),
                d <= n,
                current.wf(),
                current.is_dir,
                current.pv() == hv.subrange(0, d as int),
                current.size() == n - d + 1,
                spine_ok(current, hv, d as int),
            decreases d,
        {
            let ghost child = current;
            proof {
                child.lemma_expected_le_size();
            }
            let count = current.children_open_count + 1;
            let mut children: Vec<FileNodeItem> = Vec::new();
            children.push(current);
            let parent = FileNodeItem {
                path: copy_prefix(home, d - 1),
                is_dir: true,
                read: false,
                open: true,
                children,
                children_open_count: count,
            };
            proof {
                assert(parent.children@ =~= seq![child]);
                assert(parent.children[0] == child);
                assert(child.pv().subrange(0, d - 1) =~= hv.subrange(0, d - 1));
                assert(count_of(parent.children@, 0) == 0);
                assert(size_of(parent.children@, 0) == 0);
                assert(parent.expected_count() == child.children_open_count + 1);
                assert(parent.wf());
                assert(size_of(parent.children@, 1) == child.size());
                assert(child.name() == hv[d - 1]);
                assert forall|j: int| d - 1 <= j <= hv.len() implies #[trigger] spine_at(parent, hv, d - 1, j) by {
                    let rest = hv.subrange(d - 1, j);
                    if j == d - 1 {
                        assert(rest.len() == 0);
                        assert(parent.pv() =~= hv.subrange(0, j));
                    } else {
                        assert(rest[0] == hv[d - 1]);
                        assert(parent.child_index_from(rest[0], 0) == Some(0int));
                        assert(rest.drop_first() =~= hv.subrange(d as int, j));
                        assert(parent.descend(rest) == child.descend(hv.subrange(d as int, j)));
                        assert(spine_at(child, hv, d as int, j));
                    }
                }
            }
            current = parent;
            d = d - 1;
        }
        self.root = current;
        self.home = copy_path(home);
        self.pwd = copy_path(home);
        self.node_count = n + 1;
        proof {
            assert(spine_at(self.root, hv, 0, n as int));
            assert(hv.subrange(0, n as int) =~= hv);
            assert forall|s: Seq<char>| #[trigger] self.node_at(hv.push(s)) is None by {
                self.root.lemma_descend_concat(hv, seq![s]);
                assert(hv + seq![s] =~= hv.push(s));
            }
        }
    }

    /// The node at `path`, if every component of it has been read.
    pub fn get_file_node(&self, path: &Vec<String>) -> (r: Option<&FileNodeItem>)
        requires
            self.wf(),
        ensures
            match r {
                Some(n) => self.node_at(path_view(*path)) == Some(*n),
                None => self.node_at(path_view(*path)) is None,
            },
            r matches Some(n) ==> n.wf(),
    {
        let r = self.root.get_node_at(path, 0);
        assert(path_view(*path).subrange(0, path.len() as int) =~= path_view(*path));
        r
    }

    /// Makes `change` to the node at `path`, which must exist, and repairs
    /// the counts from it up to the root.
    fn change_at(&mut self, path: &Vec<String>, change: Change)
        requires
            old(self).wf(),
            old(self).node_at(path_view(*path)) is Some,
            change matches Change::Merge(kids) ==> FileNodeItem::valid_children(path_view(*path), kids@),
            old(self).node_count + change.extra() <= usize::MAX,
        ensures
            final(self).wf(),
            final(self).node_at(path_view(*path)) is Some,
            change.applied(old(self).node_at(path_view(*path)).unwrap(), final(self).node_at(path_view(*path)).unwrap()),
            final(self).node_count + old(self).node_at(path_view(*path)).unwrap().size() == old(self).node_count
                + final(self).node_at(path_view(*path)).unwrap().size(),
            framed(*old(self), *final(self), path_view(*path)),
            final(self).home == old(self).home,
            final(self).pwd == old(self).pwd,
            final(self).active == old(self).active,
            final(self).index == old(self).index,
    {
        let ghost pv = path_view(*path);
        proof {
            assert(pv.subrange(0, path.len() as int) =~= pv);
            assert(pv.subrange(0, 0) =~= self.root.pv());
        }
        let before = match self.get_file_node(path) {
            Some(n) => {
                proof {
                    self.root.lemma_descend_size(pv);
                }
                n.subtree_size()
            },
            None => {
                return;
            },
        };
        let after = match &change {
            Change::Merge(kids) => {
                proof {
                    FileNodeItem::lemma_fresh_size(kids@, kids@.len() as int);
                }
                kids.len() + 1
            },
            Change::Toggle => before,
        };
        let ghost ch = change;
        self.root.apply_at(path, 0, change);
        proof {
            let t = self.node_at(pv).unwrap();
            let o = old(self).node_at(pv).unwrap();
            assert(ch.applied(o, t));
            assert(t.children@ == o.children@ ==> t.size() == o.size());
            if let Change::Merge(kids) = ch {
                assert(t.children@ == kids@);
            }
            assert(t.size() == after);
        }
        self.node_count = self.node_count - before + after;
    }

    /// Merges a directory listing read for `path`: the node's children
    /// become fresh nodes for the entries, directories first, and are shown.
    /// Nothing happens when no node stands at `path`.
    pub fn set_item_children(&mut self, path: &Vec<String>, entries: &Vec<DirEntry>)
        requires
            old(self).wf(),
            distinct_names(entries@),
            old(self).node_count + entries.len() <= usize::MAX,
        ensures
            final(self).wf(),
            old(self).node_at(path_view(*path)) is None ==> *final(self) == *old(self),
            old(self).node_at(path_view(*path)) matches Some(o) ==> final(self).node_count == old(self).node_count
                - o.size() + entries.len() + 1 && merged(o, final(self).node_at(path_view(*path)), path_view(*path), entries@)
                && framed(*old(self), *final(self), path_view(*path)),
            final(self).home == old(self).home,
            final(self).pwd == old(self).pwd,
            final(self).active == old(self).active,
            final(self).index == old(self).index,
    {
        if self.get_file_node(path).is_none() {
            return;
        }
        let kids = children_from_listing(path, entries);
        proof {
            lemma_arranged_len(entries@);
        }
        self.change_at(path, Change::Merge(kids));
        proof {
            let t = self.node_at(path_view(*path)).unwrap();
            FileNodeItem::lemma_fresh_size(t.children@, t.children@.len() as int);
        }
    }

    /// Shows or hides the children of the node at `path`. Nothing happens
    /// when no node stands there.
    pub fn toggle_open(&mut self, path: &Vec<String>)
        requires
            old(self).wf(),
        ensures
            final(self).wf(),
            old(self).node_at(path_view(*path)) is None ==> *final(self) == *old(self),
            old(self).node_at(path_view(*path)) matches Some(o) ==> final(self).node_at(path_view(*path)) is Some
                && Change::Toggle.applied(o, final(self).node_at(path_view(*path)).unwrap())
                && framed(*old(self), *final(self), path_view(*path)),
            final(self).node_count == old(self).node_count,
            final(self).home == old(self).home,
            final(self).pwd == old(self).pwd,
            final(self).active == old(self).active,
            final(self).index == old(self).index,
    {
        if self.get_file_node(path).is_none() {
            return;
        }
        self.change_at(path, Change::Toggle);
    }

    /// Recomputes the count of the node at `path` from its children's
    /// stored counts. In a well-formed tree every stored count already is
    /// what this recomputation gives, so the state stays exactly as it was.
    /// Always returns `None`.
    pub fn update_node_count(&mut self, path: &Vec<String>) -> (r: Option<()>)
        requires
            old(self).wf(),
        ensures
            r is None,
            *final(self) == *old(self),
            old(self).node_at(path_view(*path)) matches Some(n) ==> n.children_open_count == n.expected_count(),
    {
        match self.get_file_node(path) {
            None => None,
            Some(n) => {
                proof {
                    self.root.lemma_descend(path_view(*path));
                }
                let c = n.recount();
                assert(c == n.children_open_count);
                None
            },
        }
    }
}

impl Default for FilePickerData {
    fn default() -> (r: Self)
        ensures
            r.wf(),
            !r.active,
            path_view(r.pwd).len() == 0,
            r.index is None,
    {
        FilePickerData::new()
    }
}

} // verus!
