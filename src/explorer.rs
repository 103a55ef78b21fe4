use vstd::prelude::*;

use crate::picker::{framed, FilePickerData};
use crate::tree::{copy_path, path_view, Change, FileNodeItem};

verus! {

/// Horizontal indentation of one level of the listing, in pixels.
pub const INDENT: u64 = 15;

/// Side of the square toggle of a directory row, in pixels.
pub const TOGGLE_SIZE: u64 = 13;

/// Longest gap between two clicks on a row that still makes a double click.
pub const DOUBLE_CLICK_MS: u64 = 500;

/// What the picker asks of the editor around it.
pub enum PickerAction {
    /// List the children of this directory, then merge them in.
    ReadDir(Vec<String>),
    OpenFile(Vec<String>),
    SetWorkspace(Vec<String>),
    ClosePicker,
}

/// The scrolling listing of the current directory, with the state that
/// tells a double click from two single ones.
pub struct FilePickerExplorer {
    /// Row and time in milliseconds of the last click that selected a row.
    pub last_left_click: Option<(usize, u64)>,
    /// Height of one row, in pixels.
    pub line_height: u64,
}

/// What the listing paints for one row.
pub struct RowView {
    /// Offset of the row in the listing.
    pub index: usize,
    pub path: Vec<String>,
    pub is_dir: bool,
    pub open: bool,
    /// Depth below the current directory; its children are at level 1.
    pub level: usize,
}

/// `v` paints the listing row `n` at offset `k` below `pwd`.
pub open spec fn shows_row(v: RowView, n: FileNodeItem, k: int, pwd: Vec<String>) -> bool {
    &&& v.index == k
    &&& path_view(v.path) == n.pv()
    &&& v.is_dir == n.is_dir
    &&& v.open == n.open
    &&& v.level == level_of(n, pwd)
}

/// Whether the point `(x, y)` falls on the toggle of the row under it, for
/// a row at `level` (the children of the current directory are at level 1)
/// and rows `h` pixels high.
pub open spec fn on_toggle(x: int, y: int, level: int, h: int) -> bool {
    let x0 = 1 + INDENT * level;
    let y0 = (h - TOGGLE_SIZE) / 2;
    &&& x0 <= x < x0 + TOGGLE_SIZE
    &&& y0 <= y % h < y0 + TOGGLE_SIZE
}

/// A click on row `k` at `now` repeats the last one soon enough.
pub open spec fn is_double(last: Option<(usize, u64)>, k: int, now: int) -> bool {
    match last {
        Some((i, t)) => i == k && now - t < DOUBLE_CLICK_MS,
        None => false,
    }
}

/// Level of a row node below the current directory `pwd`.
pub open spec fn level_of(n: FileNodeItem, pwd: Vec<String>) -> int {
    n.pv().len() - path_view(pwd).len()
}

/// What a press at `(x, y)` at `now` does: `ex` and `d` before it, `ex2`
/// and `d2` after it, and the actions asked for.
pub open spec fn click_outcome(
    ex: FilePickerExplorer,
    ex2: FilePickerExplorer,
    d: FilePickerData,
    d2: FilePickerData,
    x: u64,
    y: u64,
    now: u64,
    actions: Seq<PickerAction>,
) -> bool {
    let k = y / ex.line_height;
    let rows = d.listing();
    if k >= rows.len() {
        &&& d2 == d
        &&& ex2 == ex
        &&& actions.len() == 0
    } else {
        let n = rows[k as int];
        let p = path_view(n.path);
        if n.is_dir && on_toggle(x as int, y as int, level_of(n, d.pwd), ex.line_height as int) {
            &&& ex2.last_left_click == ex.last_left_click
            &&& d2.index == Some(k as usize)
            &&& d2.pwd == d.pwd
            &&& d2.active == d.active
            &&& if n.read {
                &&& actions.len() == 0
                &&& d.node_at(p) == Some(n)
                &&& d2.node_at(p) is Some
                &&& Change::Toggle.applied(n, d2.node_at(p).unwrap())
                &&& framed(d, d2, p)
            } else {
                &&& d2.root == d.root
                &&& actions.len() == 1
                &&& actions[0] matches PickerAction::ReadDir(q) && path_view(q) == p
            }
        } else if is_double(ex.last_left_click, k as int, now as int) {
            &&& ex2.last_left_click is None
            &&& d2.root == d.root
            &&& if n.is_dir {
                &&& path_view(d2.pwd) == p
                &&& d2.index is None
                &&& d2.active == d.active
                &&& actions.len() == 1
                &&& actions[0] matches PickerAction::ReadDir(q) && path_view(q) == p
            } else {
                &&& d2.pwd == d.pwd
                &&& d2.index == d.index
                &&& !d2.active
                &&& actions.len() == 2
                &&& actions[0] matches PickerAction::OpenFile(q) && path_view(q) == p
                &&& actions[1] is ClosePicker
            }
        } else {
            &&& ex2.last_left_click == Some((k as usize, now))
            &&& d2.root == d.root
            &&& d2.pwd == d.pwd
            &&& d2.active == d.active
            &&& d2.index == Some(k as usize)
            &&& actions.len() == 0
        }
    }
}

impl FilePickerExplorer {
    pub open spec fn wf(self) -> bool {
        self.line_height >= TOGGLE_SIZE
    }

    pub fn new() -> (r: Self)
        ensures
            r.wf(),
            r.last_left_click is None,
            r.line_height == 25,
    {
        FilePickerExplorer { last_left_click: None, line_height: 25 }
    }

    /// The listing row under the vertical position `y`.
    pub fn row_at(&self, y: u64) -> (k: u64)
        requires
            self.wf(),
        ensures
            k == y / self.line_height,
    {
        y / self.line_height
    }

    /// First row of the band painted for the visible span `[y0, y1)`.
    pub open spec fn band_start(self, y0: int) -> int {
        y0 / self.line_height as int
    }

    /// End of that band: one row of slack below the last visible row.
    pub open spec fn band_end(self, y1: int) -> int {
        y1 / self.line_height as int + 2
    }

    /// The rows to paint for the visible span `[y0, y1)`: the listing rows
    /// whose offsets fall in the band, in order. The cost follows the span,
    /// not the size of the tree.
    pub fn visible_rows(&self, data: &FilePickerData, y0: u64, y1: u64) -> (r: Vec<RowView>)
        requires
            self.wf(),
            data.wf(),
        ensures
            ({
                let lo = self.band_start(y0 as int);
                let hi = self.band_end(y1 as int);
                let len = data.listing().len() as int;
                let end = if hi < len { hi } else { len };
                &&& r@.len() == (if lo < end { end - lo } else { 0 })
                &&& forall|j: int| 0 <= j < r@.len() ==> shows_row(#[trigger] r@[j], data.listing()[lo + j], lo + j, data.pwd)
            }),
    {
        let mut r: Vec<RowView> = Vec::new();
        let ghost lo = self.band_start(y0 as int);
        let ghost hi = self.band_end(y1 as int);
        let ghost len = data.listing().len() as int;
        proof {
            data.lemma_listing_len();
        }
        let first = y0 / self.line_height;
        let last = y1 / self.line_height;
        if first > usize::MAX as u64 || (first > last && first - last >= 2) {
            return r;
        }
        let mut k: usize = first as usize;
        while (k as u64) < last || (k as u64) - last < 2
            invariant
                self.wf(),
                data.wf(),
                lo == first,
                hi == last + 2,
                lo == self.band_start(y0 as int),
                hi == self.band_end(y1 as int),
                len == data.listing().len(),
                len <= usize::MAX,
                lo <= k,
                k <= hi,
                r@.len() == k - lo,
                forall|j: int| 0 <= j < r@.len() ==> shows_row(#[trigger] r@[j], data.listing()[lo + j], lo + j, data.pwd),
                lo < k ==> k <= len,
            decreases hi - k,
        {
            match data.row_node(k) {
                None => {
                    proof {
                        assert(k < hi);
                        assert(k >= len);
                        let end = if hi < len { hi } else { len };
                        assert(end == len);
                        if k > lo {
                            assert(k == len);
                        }
                    }
                    return r;
                },
                Some(n) => {
                    r.push(RowView {
                        index: k,
                        path: copy_path(&n.path),
                        is_dir: n.is_dir,
                        open: n.open,
                        level: n.path.len() - data.pwd.len(),
                    });
                },
            }
            if k == usize::MAX {
                return r;
            }
            k = k + 1;
        }
        r
    }

    /// Height of the listing: one row per row below the current directory,
    /// or `max_height` while that directory is not reachable.
    pub fn listing_height(&self, data: &FilePickerData, max_height: u64) -> (r: u64)
        requires
            self.wf(),
            data.wf(),
        ensures
            r == match data.node_at(path_view(data.pwd)) {
                Some(n) => if n.children_open_count * self.line_height <= u64::MAX {
                    (n.children_open_count * self.line_height) as u64
                } else {
                    u64::MAX
                },
                None => max_height,
            },
    {
        match data.get_file_node(&data.pwd) {
            Some(n) => {
                let c = n.children_open_count as u128;
                let h = self.line_height as u128;
                assert(c * h <= 0xffff_ffff_ffff_ffff * 0xffff_ffff_ffff_ffffu128) by (nonlinear_arith)
                    requires c <= 0xffff_ffff_ffff_ffff, h <= 0xffff_ffff_ffff_ffff;
                let total = c * h;
                if total <= u64::MAX as u128 {
                    total as u64
                } else {
                    u64::MAX
                }
            },
            None => max_height,
        }
    }

    /// Whether the listing must be laid out again after `old` became `new`:
    /// the rows below the root or the current directory changed.
    pub fn needs_layout(old: &FilePickerData, new: &FilePickerData) -> (r: bool)
        ensures
            r == (old.root.children_open_count != new.root.children_open_count || path_view(old.pwd)
                != path_view(new.pwd)),
    {
        if old.root.children_open_count != new.root.children_open_count {
            return true;
        }
        if old.pwd.len() != new.pwd.len() {
            assert(path_view(old.pwd).len() != path_view(new.pwd).len());
            return true;
        }
        let mut i: usize = 0;
        while i < old.pwd.len()
            invariant
                old.pwd.len() == new.pwd.len(),
                i <= old.pwd.len(),
                forall|j: int| 0 <= j < i ==> path_view(old.pwd)[j] == path_view(new.pwd)[j],
            decreases old.pwd.len() - i,
        {
            if old.pwd[i] != new.pwd[i] {
                assert(path_view(old.pwd)[i as int] != path_view(new.pwd)[i as int]);
                return true;
            }
            i += 1;
        }
        assert(path_view(old.pwd) =~= path_view(new.pwd));
        false
    }

    /// Whether the pointer at height `y` is over a row of the listing.
    pub fn hover(&self, data: &FilePickerData, y: u64) -> (r: bool)
        requires
            self.wf(),
            data.wf(),
        ensures
            r == (y / self.line_height < data.listing().len()),
    {
        let k = self.row_at(y);
        proof {
            data.lemma_listing_len();
        }
        if k > usize::MAX as u64 {
            return false;
        }
        data.row_node(k as usize).is_some()
    }

    fn hits_toggle(&self, x: u64, y: u64, level: usize) -> (r: bool)
        requires
            self.wf(),
        ensures
            r == on_toggle(x as int, y as int, level as int, self.line_height as int),
    {
        let h = self.line_height;
        let lv = level as u128;
        assert(lv <= 0xffff_ffff_ffff_ffff);
        assert((INDENT as u128) * lv <= 15 * 0xffff_ffff_ffff_ffffu128) by (nonlinear_arith)
            requires lv <= 0xffff_ffff_ffff_ffff;
        let x0: u128 = 1 + (INDENT as u128) * lv;
        let y0 = (h - TOGGLE_SIZE) / 2;
        let off = y % h;
        (x0 <= x as u128 && (x as u128) < x0 + TOGGLE_SIZE as u128) && (y0 <= off && off < y0 + TOGGLE_SIZE)
    }

    fn repeats(&self, k: usize, now: u64) -> (r: bool)
        ensures
            r == is_double(self.last_left_click, k as int, now as int),
    {
        match self.last_left_click {
            Some((i, t)) => i == k && (now < t || now - t < DOUBLE_CLICK_MS),
            None => false,
        }
    }

    /// A press of the left button at `(x, y)` in the listing, at `now`
    /// milliseconds. Returns what the editor has to do.
    pub fn mouse_down(&mut self, data: &mut FilePickerData, x: u64, y: u64, now: u64) -> (actions: Vec<PickerAction>)
        requires
            old(self).wf(),
            old(data).wf(),
        ensures
            final(self).wf(),
            final(self).line_height == old(self).line_height,
            final(data).wf(),
            final(data).home == old(data).home,
            final(data).node_count == old(data).node_count,
            click_outcome(*old(self), *final(self), *old(data), *final(data), x, y, now, actions@),
    {
        let mut actions: Vec<PickerAction> = Vec::new();
        let k64 = self.row_at(y);
        proof {
            data.lemma_listing_len();
        }
        if k64 > usize::MAX as u64 {
            return actions;
        }
        let k = k64 as usize;
        let (path, is_dir, read, level) = match data.row_node(k) {
            None => {
                return actions;
            },
            Some(n) => (copy_path(&n.path), n.is_dir, n.read, n.path.len() - data.pwd.len()),
        };
        if is_dir && self.hits_toggle(x, y, level) {
            if read {
                data.toggle_open(&path);
            } else {
                actions.push(PickerAction::ReadDir(path));
            }
            data.index = Some(k);
            return actions;
        }
        if self.repeats(k, now) {
            self.last_left_click = None;
            if is_dir {
                let pwd = copy_path(&path);
                actions.push(PickerAction::ReadDir(path));
                data.pwd = pwd;
                data.index = None;
            } else {
                actions.push(PickerAction::OpenFile(path));
                actions.push(PickerAction::ClosePicker);
                data.active = false;
            }
            return actions;
        }
        self.last_left_click = Some((k, now));
        data.index = Some(k);
        actions
    }
}

impl Default for FilePickerExplorer {
    fn default() -> (r: Self)
        ensures
            r.wf(),
            r.last_left_click is None,
            r.line_height == 25,
    {
        FilePickerExplorer::new()
    }
}

} // verus!
