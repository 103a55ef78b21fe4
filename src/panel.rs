use vstd::prelude::*;

use crate::bars::{control_laid_out, pwd_laid_out, control_outcome, sat_add, up_outcome, FilePickerControl, FilePickerPwd, BAR_HEIGHT};
use crate::explorer::{click_outcome, FilePickerExplorer, PickerAction};
use crate::picker::FilePickerData;

verus! {

/// Width of the picker, in pixels.
pub const PANEL_WIDTH: u64 = 500;

/// Height of the picker, in pixels.
pub const PANEL_HEIGHT: u64 = 400;

/// The picker: the path bar on top, the control bar at the bottom, and the
/// listing between them.
pub struct FilePicker {
    pub pwd: FilePickerPwd,
    pub explorer: FilePickerExplorer,
    pub control: FilePickerControl,
    /// Height of the path bar, in pixels.
    pub pwd_height: u64,
}

/// What a press at `(x, y)` on the picker `fp` does, with the listing
/// scrolled down by `scroll` pixels, at `now`.
pub open spec fn picker_outcome(
    fp: FilePicker,
    fp2: FilePicker,
    d: FilePickerData,
    d2: FilePickerData,
    x: u64,
    y: u64,
    scroll: u64,
    now: u64,
    actions: Seq<PickerAction>,
) -> bool {
    if !d.active {
        d2 == d && fp2 == fp && actions.len() == 0
    } else if y < fp.pwd_height {
        up_outcome(fp.pwd, d, d2, x, y) && fp2 == fp && actions.len() == 0
    } else if y >= PANEL_HEIGHT - BAR_HEIGHT {
        control_outcome(fp.control, d, d2, x, (y - (PANEL_HEIGHT - BAR_HEIGHT)) as u64, actions) && fp2 == fp
    } else {
        &&& click_outcome(
            fp.explorer,
            fp2.explorer,
            d,
            d2,
            x,
            sat_add(y - fp.pwd_height, scroll as int) as u64,
            now,
            actions,
        )
        &&& fp2.pwd == fp.pwd
        &&& fp2.control == fp.control
        &&& fp2.pwd_height == fp.pwd_height
    }
}

impl FilePicker {
    pub open spec fn wf(self) -> bool {
        &&& self.explorer.wf()
        &&& self.pwd_height <= PANEL_HEIGHT - BAR_HEIGHT
    }

    pub fn new() -> (r: Self)
        ensures
            r.wf(),
            r.pwd.icons@.len() == 0,
            r.control.buttons@.len() == 0,
            r.explorer.last_left_click is None,
    {
        FilePicker {
            pwd: FilePickerPwd::new(),
            explorer: FilePickerExplorer::new(),
            control: FilePickerControl::new(),
            pwd_height: 0,
        }
    }

    /// Lays the bars out for a path bar `pwd_height` high with buttons of
    /// side `icon_size`, and confirm and cancel labels of the given widths.
    pub fn layout(&mut self, pwd_height: u64, icon_size: u64, open_label: u64, cancel_label: u64)
        requires
            old(self).wf(),
        ensures
            final(self).wf(),
            final(self).pwd_height == (if pwd_height <= PANEL_HEIGHT - BAR_HEIGHT {
                pwd_height as int
            } else {
                PANEL_HEIGHT - BAR_HEIGHT
            }),
            final(self).explorer == old(self).explorer,
            pwd_laid_out(final(self).pwd, PANEL_WIDTH, final(self).pwd_height, icon_size),
            control_laid_out(final(self).control, PANEL_WIDTH, open_label, cancel_label),
    {
        let h = if pwd_height <= PANEL_HEIGHT - BAR_HEIGHT {
            pwd_height
        } else {
            PANEL_HEIGHT - BAR_HEIGHT
        };
        self.pwd_height = h;
        self.pwd.layout(PANEL_WIDTH, h, icon_size);
        self.control.layout(PANEL_WIDTH, open_label, cancel_label);
    }

    /// A press of the left button at `(x, y)`, handed to the part of the
    /// picker under it; nothing happens while the picker is hidden.
    pub fn mouse_down(&mut self, data: &mut FilePickerData, x: u64, y: u64, scroll: u64, now: u64) -> (actions: Vec<PickerAction>)
        requires
            old(self).wf(),
            old(data).wf(),
        ensures
            final(self).wf(),
            final(data).wf(),
            picker_outcome(*old(self), *final(self), *old(data), *final(data), x, y, scroll, now, actions@),
    {
        if !data.active {
            return Vec::new();
        }
        if y < self.pwd_height {
            self.pwd.mouse_down(data, x, y);
            return Vec::new();
        }
        if y >= PANEL_HEIGHT - BAR_HEIGHT {
            return self.control.mouse_down(data, x, y - (PANEL_HEIGHT - BAR_HEIGHT));
        }
        let ly = (y - self.pwd_height).saturating_add(scroll);
        self.explorer.mouse_down(data, x, ly, now)
    }
}

} // verus!
