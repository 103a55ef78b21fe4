use vstd::prelude::*;

use crate::explorer::PickerAction;
use crate::picker::FilePickerData;
use crate::tree::{copy_path, copy_prefix, path_view, FileNodeItem};

verus! {

/// An axis-aligned rectangle in pixels, `x0 <= x < x1` and `y0 <= y < y1`.
pub struct PxRect {
    pub x0: u64,
    pub y0: u64,
    pub x1: u64,
    pub y1: u64,
}

impl PxRect {
    pub open spec fn holds(self, x: int, y: int) -> bool {
        self.x0 <= x < self.x1 && self.y0 <= y < self.y1
    }

    pub fn contains(&self, x: u64, y: u64) -> (r: bool)
        ensures
            r == self.holds(x as int, y as int),
    {
        self.x0 <= x && x < self.x1 && self.y0 <= y && y < self.y1
    }
}

/// Position of the first rectangle of `rs` that holds `(x, y)`.
pub open spec fn first_hit(rs: Seq<PxRect>, x: int, y: int, i: int) -> Option<int>
    decreases rs.len() - i,
{
    if i < 0 || i >= rs.len() {
        None
    } else if rs[i].holds(x, y) {
        Some(i)
    } else {
        first_hit(rs, x, y, i + 1)
    }
}

fn find_hit(rs: &Vec<PxRect>, x: u64, y: u64) -> (r: Option<usize>)
    ensures
        match r {
            Some(i) => first_hit(rs@, x as int, y as int, 0) == Some(i as int),
            None => first_hit(rs@, x as int, y as int, 0) is None,
        },
{
    let mut i: usize = 0;
    while i < rs.len()
        invariant
            i <= rs.len(),
            first_hit(rs@, x as int, y as int, 0) == first_hit(rs@, x as int, y as int, i as int),
        decreases rs.len() - i,
    {
        if rs[i].contains(x, y) {
            return Some(i);
        }
        i += 1;
    }
    None
}

/// The bar above the listing: the current directory and a button that
/// goes up one directory.
pub struct FilePickerPwd {
    /// The buttons of the bar; the first goes up.
    pub icons: Vec<PxRect>,
}

/// The parent of `p`, if `p` is not the root.
pub open spec fn parent_of(p: Seq<Seq<char>>) -> Option<Seq<Seq<char>>> {
    if p.len() == 0 {
        None
    } else {
        Some(p.drop_last())
    }
}

/// What a press at `(x, y)` on the bar `bar` does to `d`, giving `d2`.
pub open spec fn up_outcome(bar: FilePickerPwd, d: FilePickerData, d2: FilePickerData, x: u64, y: u64) -> bool {
    let up = bar.icons@.len() > 0 && bar.icons@[0].holds(x as int, y as int);
    &&& up && parent_of(path_view(d.pwd)) is Some ==> path_view(d2.pwd) == parent_of(path_view(d.pwd)).unwrap()
    &&& !(up && parent_of(path_view(d.pwd)) is Some) ==> d2.pwd == d.pwd
    &&& d2.root == d.root
    &&& d2.home == d.home
    &&& d2.active == d.active
    &&& d2.index == d.index
    &&& d2.node_count == d.node_count
}

/// `bar` holds the up button laid out for a bar of the given size: a square
/// of side `icon_size` at the right end, centred vertically.
pub open spec fn pwd_laid_out(bar: FilePickerPwd, width: u64, height: u64, icon_size: u64) -> bool {
    let gap = if height >= icon_size { (height - icon_size) / 2 } else { 0 };
    let x0 = if width >= gap + icon_size { width - gap - icon_size } else { 0 };
    &&& bar.icons@.len() == 1
    &&& bar.icons@[0] == PxRect {
        x0: x0 as u64,
        y0: gap as u64,
        x1: if x0 + icon_size <= u64::MAX { (x0 + icon_size) as u64 } else { u64::MAX },
        y1: if gap + icon_size <= u64::MAX { (gap + icon_size) as u64 } else { u64::MAX },
    }
}

impl FilePickerPwd {
    pub fn new() -> (r: Self)
        ensures
            r.icons@.len() == 0,
    {
        FilePickerPwd { icons: Vec::new() }
    }

    /// Places the up button at the right end of a bar of the given size,
    /// as a square of side `icon_size` centred vertically.
    pub fn layout(&mut self, width: u64, height: u64, icon_size: u64)
        ensures
            pwd_laid_out(*final(self), width, height, icon_size),
    {
        let gap = height.saturating_sub(icon_size) / 2;
        let x0 = width.saturating_sub(gap).saturating_sub(icon_size);
        self.icons = Vec::new();
        self.icons.push(
            PxRect {
                x0,
                y0: gap,
                x1: x0.saturating_add(icon_size),
                y1: gap.saturating_add(icon_size),
            },
        );
    }

    /// Whether `(x, y)` is on one of the bar's buttons.
    pub fn icon_hit_test(&self, x: u64, y: u64) -> (r: bool)
        ensures
            r == (first_hit(self.icons@, x as int, y as int, 0) is Some),
    {
        find_hit(&self.icons, x, y).is_some()
    }

    /// A press at `(x, y)`: on the up button it shows the parent of the
    /// current directory, if there is one.
    pub fn mouse_down(&self, data: &mut FilePickerData, x: u64, y: u64)
        ensures
            up_outcome(*self, *old(data), *final(data), x, y),
    {
        if self.icons.len() > 0 && self.icons[0].contains(x, y) && data.pwd.len() > 0 {
            let parent = copy_prefix(&data.pwd, data.pwd.len() - 1);
            proof {
                assert(path_view(data.pwd).subrange(0, data.pwd.len() - 1) =~= path_view(data.pwd).drop_last());
            }
            data.pwd = parent;
        }
    }
}

/// Height of the control bar, in pixels.
pub const BAR_HEIGHT: u64 = 50;

/// Height of a control button, in pixels.
pub const BUTTON_HEIGHT: u64 = 25;

/// Space around a control button, in pixels.
pub const GAP: u64 = 12;

pub open spec fn sat_sub(a: int, b: int) -> int {
    if a >= b {
        a - b
    } else {
        0
    }
}

pub open spec fn sat_add(a: int, b: int) -> int {
    if a + b <= u64::MAX {
        a + b
    } else {
        u64::MAX as int
    }
}

/// A control button whose right edge is at `x` and which is `w` wide.
pub open spec fn button_rect(x: int, w: int) -> PxRect {
    PxRect { x0: sat_sub(x, w) as u64, y0: GAP, x1: x as u64, y1: (GAP + BUTTON_HEIGHT) as u64 }
}

/// `bar` holds the confirm button at the right end of a bar `width` wide and
/// the cancel button to its left, each as wide as its label plus a gap on
/// either side.
pub open spec fn control_laid_out(bar: FilePickerControl, width: u64, open_label: u64, cancel_label: u64) -> bool {
    let x = sat_sub(width as int, GAP as int);
    let w0 = sat_add(open_label as int, 2 * GAP);
    let x2 = sat_sub(x, sat_add(w0, GAP as int));
    let w1 = sat_add(cancel_label as int, 2 * GAP);
    &&& bar.buttons@.len() == 2
    &&& bar.buttons@[0].kind is Open
    &&& bar.buttons@[1].kind is Cancel
    &&& bar.buttons@[0].rect == button_rect(x, w0)
    &&& bar.buttons@[1].rect == button_rect(x2, w1)
}

/// The two buttons of the control bar.
pub enum ButtonKind {
    /// Use the selected row: adopt a directory, or open a file.
    Open,
    Cancel,
}

pub struct ControlButton {
    pub rect: PxRect,
    pub kind: ButtonKind,
}

/// The bar below the listing, with its confirm and cancel buttons.
pub struct FilePickerControl {
    pub buttons: Vec<ControlButton>,
}

/// What confirming asks for the listing row `n`.
pub open spec fn confirm_actions(n: FileNodeItem, actions: Seq<PickerAction>) -> bool {
    if n.is_dir {
        &&& actions.len() == 1
        &&& actions[0] matches PickerAction::SetWorkspace(q) && path_view(q) == n.pv()
    } else {
        &&& actions.len() == 2
        &&& actions[0] matches PickerAction::OpenFile(q) && path_view(q) == n.pv()
        &&& actions[1] is ClosePicker
    }
}

/// The row that the selection names in the listing, if any.
pub open spec fn selected_row(d: FilePickerData) -> Option<FileNodeItem> {
    match d.index {
        Some(k) => if k < d.listing().len() {
            Some(d.listing()[k as int])
        } else {
            None
        },
        None => None,
    }
}

/// `after` and `actions` are what confirming the selection of `before` gives.
pub open spec fn confirm_outcome(before: FilePickerData, after: FilePickerData, actions: Seq<PickerAction>) -> bool {
    match selected_row(before) {
        None => actions.len() == 0 && after == before,
        Some(n) => {
            &&& confirm_actions(n, actions)
            &&& after.active == (before.active && n.is_dir)
            &&& after.root == before.root
            &&& after.pwd == before.pwd
            &&& after.home == before.home
            &&& after.index == before.index
            &&& after.node_count == before.node_count
        },
    }
}

/// What a press at `(x, y)` on the bar `bar` does to `d`, giving `d2`.
pub open spec fn control_outcome(
    bar: FilePickerControl,
    d: FilePickerData,
    d2: FilePickerData,
    x: u64,
    y: u64,
    actions: Seq<PickerAction>,
) -> bool {
    match first_hit(bar.rects(), x as int, y as int, 0) {
        None => actions.len() == 0 && d2 == d,
        Some(i) => match bar.buttons@[i].kind {
            ButtonKind::Cancel => actions.len() == 1 && actions[0] is ClosePicker && d2 == d,
            ButtonKind::Open => confirm_outcome(d, d2, actions),
        },
    }
}

impl FilePickerControl {
    pub open spec fn rects(self) -> Seq<PxRect> {
        self.buttons@.map_values(|b: ControlButton| b.rect)
    }

    pub fn new() -> (r: Self)
        ensures
            r.buttons@.len() == 0,
    {
        FilePickerControl { buttons: Vec::new() }
    }

    /// Whether `(x, y)` is on one of the buttons.
    pub fn icon_hit_test(&self, x: u64, y: u64) -> (r: bool)
        ensures
            r == (first_hit(self.rects(), x as int, y as int, 0) is Some),
    {
        let mut rects: Vec<PxRect> = Vec::new();
        let mut i: usize = 0;
        while i < self.buttons.len()
            invariant
                i <= self.buttons.len(),
                rects@ =~= self.rects().subrange(0, i as int),
            decreases self.buttons.len() - i,
        {
            let b = &self.buttons[i].rect;
            rects.push(PxRect { x0: b.x0, y0: b.y0, x1: b.x1, y1: b.y1 });
            i += 1;
        }
        assert(rects@ =~= self.rects());
        find_hit(&rects, x, y).is_some()
    }

    /// Confirms the selection: a selected directory becomes the workspace,
    /// a selected file is opened and the picker closes. Without a selected
    /// row nothing happens.
    pub fn confirm(data: &mut FilePickerData) -> (actions: Vec<PickerAction>)
        requires
            old(data).wf(),
        ensures
            confirm_outcome(*old(data), *final(data), actions@),
    {
        let mut actions: Vec<PickerAction> = Vec::new();
        let k = match data.index {
            None => {
                return actions;
            },
            Some(k) => k,
        };
        let (path, is_dir) = match data.row_node(k) {
            None => {
                return actions;
            },
            Some(n) => (copy_path(&n.path), n.is_dir),
        };
        if is_dir {
            actions.push(PickerAction::SetWorkspace(path));
        } else {
            actions.push(PickerAction::OpenFile(path));
            actions.push(PickerAction::ClosePicker);
            data.active = false;
        }
        actions
    }

    /// Places the confirm button at the right end of a bar `width` wide,
    /// and the cancel button to its left, each as wide as its label plus a
    /// gap on either side.
    pub fn layout(&mut self, width: u64, open_label: u64, cancel_label: u64)
        ensures
            control_laid_out(*final(self), width, open_label, cancel_label),
    {
        let x = width.saturating_sub(GAP);
        let w0 = open_label.saturating_add(2 * GAP);
        let open = ControlButton {
            rect: PxRect { x0: x.saturating_sub(w0), y0: GAP, x1: x, y1: GAP + BUTTON_HEIGHT },
            kind: ButtonKind::Open,
        };
        let x2 = x.saturating_sub(w0.saturating_add(GAP));
        let w1 = cancel_label.saturating_add(2 * GAP);
        let cancel = ControlButton {
            rect: PxRect { x0: x2.saturating_sub(w1), y0: GAP, x1: x2, y1: GAP + BUTTON_HEIGHT },
            kind: ButtonKind::Cancel,
        };
        self.buttons = Vec::new();
        self.buttons.push(open);
        self.buttons.push(cancel);
    }

    /// Cancels the picker.
    pub fn cancel() -> (actions: Vec<PickerAction>)
        ensures
            actions@.len() == 1,
            actions@[0] is ClosePicker,
    {
        let mut actions: Vec<PickerAction> = Vec::new();
        actions.push(PickerAction::ClosePicker);
        actions
    }

    /// A press at `(x, y)` acts through the first button under it.
    pub fn mouse_down(&self, data: &mut FilePickerData, x: u64, y: u64) -> (actions: Vec<PickerAction>)
        requires
            old(data).wf(),
        ensures
            control_outcome(*self, *old(data), *final(data), x, y, actions@),
    {
        let mut i: usize = 0;
        while i < self.buttons.len()
            invariant
                i <= self.buttons.len(),
                *data == *old(data),
                data.wf(),
                first_hit(self.rects(), x as int, y as int, 0) == first_hit(self.rects(), x as int, y as int, i as int),
            decreases self.buttons.len() - i,
        {
            if self.buttons[i].rect.contains(x, y) {
                match self.buttons[i].kind {
                    ButtonKind::Open => {
                        return FilePickerControl::confirm(data);
                    },
                    ButtonKind::Cancel => {
                        return FilePickerControl::cancel();
                    },
                }
            }
            i += 1;
        }
        Vec::new()
    }
}

impl Default for FilePickerControl {
    fn default() -> (r: Self)
        ensures
            r.buttons@.len() == 0,
    {
        FilePickerControl::new()
    }
}

} // verus!
