use file_picker::bars::{ButtonKind, FilePickerControl, FilePickerPwd};
use file_picker::explorer::{FilePickerExplorer, PickerAction};
use file_picker::panel::FilePicker;
use file_picker::picker::FilePickerData;
use file_picker::tree::DirEntry;

fn p(parts: &[&str]) -> Vec<String> {
    parts.iter().map(|s| s.to_string()).collect()
}

fn entry(name: &str, is_dir: bool) -> DirEntry {
    DirEntry { name: name.to_string(), is_dir }
}

/// Home `/home` listed as a directory `proj` (row 0) and a file `notes.txt`
/// (row 1).
fn session() -> FilePickerData {
    let mut data = FilePickerData::new();
    data.init_home(&p(&["home"]));
    data.set_item_children(&p(&["home"]), &vec![entry("notes.txt", false), entry("proj", true)]);
    data.active = true;
    data
}

/// A point on row `k`, away from its toggle.
fn body_of(k: u64) -> (u64, u64) {
    (200, k * 25 + 10)
}

/// A point on the toggle of row `k` at level 1.
fn toggle_of(k: u64) -> (u64, u64) {
    (20, k * 25 + 10)
}

fn read_path(a: &PickerAction) -> Option<Vec<String>> {
    match a {
        PickerAction::ReadDir(q) => Some(q.clone()),
        _ => None,
    }
}

#[test]
fn double_click_on_directory_enters_it() {
    let mut data = session();
    let mut ex = FilePickerExplorer::new();
    let (x, y) = body_of(0);
    let first = ex.mouse_down(&mut data, x, y, 1000);
    assert!(first.is_empty());
    assert_eq!(data.index, Some(0));
    assert_eq!(ex.last_left_click, Some((0, 1000)));
    let second = ex.mouse_down(&mut data, x, y, 1300);
    assert_eq!(second.len(), 1);
    assert_eq!(read_path(&second[0]), Some(p(&["home", "proj"])));
    assert_eq!(data.pwd, p(&["home", "proj"]));
    assert_eq!(data.index, None);
    assert_eq!(ex.last_left_click, None);
}

#[test]
fn slow_clicks_on_directory_only_select() {
    let mut data = session();
    let mut ex = FilePickerExplorer::new();
    let (x, y) = body_of(0);
    assert!(ex.mouse_down(&mut data, x, y, 1000).is_empty());
    assert_eq!(data.index, Some(0));
    assert!(ex.mouse_down(&mut data, x, y, 1600).is_empty());
    assert_eq!(data.index, Some(0));
    assert_eq!(ex.last_left_click, Some((0, 1600)));
    assert_eq!(data.pwd, p(&["home"]));
}

#[test]
fn clicks_on_different_rows_are_not_double() {
    let mut data = session();
    let mut ex = FilePickerExplorer::new();
    let (x0, y0) = body_of(0);
    let (x1, y1) = body_of(1);
    ex.mouse_down(&mut data, x0, y0, 1000);
    let acts = ex.mouse_down(&mut data, x1, y1, 1100);
    assert!(acts.is_empty());
    assert_eq!(data.index, Some(1));
    assert!(data.active);
}

#[test]
fn double_click_on_file_opens_and_closes() {
    let mut data = session();
    let mut ex = FilePickerExplorer::new();
    let (x, y) = body_of(1);
    let single = ex.mouse_down(&mut data, x, y, 5000);
    assert!(single.is_empty());
    assert!(data.active);
    let acts = ex.mouse_down(&mut data, x, y, 5499);
    assert_eq!(acts.len(), 2);
    match &acts[0] {
        PickerAction::OpenFile(q) => assert_eq!(*q, p(&["home", "notes.txt"])),
        _ => panic!("expected an open"),
    }
    assert!(matches!(acts[1], PickerAction::ClosePicker));
    assert!(!data.active);
    assert_eq!(ex.last_left_click, None);
}

#[test]
fn toggle_on_unread_directory_asks_for_one_read() {
    let mut data = session();
    let mut ex = FilePickerExplorer::new();
    let (x, y) = toggle_of(0);
    let acts = ex.mouse_down(&mut data, x, y, 10);
    assert_eq!(acts.len(), 1);
    assert_eq!(read_path(&acts[0]), Some(p(&["home", "proj"])));
    let proj = data.get_file_node(&p(&["home", "proj"])).unwrap();
    assert!(!proj.open);
    assert_eq!(ex.last_left_click, None);
    assert_eq!(data.get_file_node(&p(&["home"])).unwrap().children_open_count, 2);
    data.set_item_children(&p(&["home", "proj"]), &vec![entry("src", true), entry("Cargo.toml", false)]);
    let proj = data.get_file_node(&p(&["home", "proj"])).unwrap();
    assert!(proj.open);
    assert!(proj.read);
    assert_eq!(proj.children_open_count, 2);
    assert_eq!(data.get_file_node(&p(&["home"])).unwrap().children_open_count, 4);
    assert_eq!(data.get_file_node(&p(&[])).unwrap().children_open_count, 5);
}

#[test]
fn toggle_on_read_directory_flips_it() {
    let mut data = session();
    data.set_item_children(&p(&["home", "proj"]), &vec![entry("src", true)]);
    let mut ex = FilePickerExplorer::new();
    let (x, y) = toggle_of(0);
    let acts = ex.mouse_down(&mut data, x, y, 10);
    assert!(acts.is_empty());
    assert!(!data.get_file_node(&p(&["home", "proj"])).unwrap().open);
    assert_eq!(data.get_file_node(&p(&["home"])).unwrap().children_open_count, 2);
    let acts = ex.mouse_down(&mut data, x, y, 20);
    assert!(acts.is_empty());
    assert!(data.get_file_node(&p(&["home", "proj"])).unwrap().open);
    assert_eq!(data.get_file_node(&p(&["home"])).unwrap().children_open_count, 3);
}

#[test]
fn toggle_click_keeps_last_click() {
    let mut data = session();
    let mut ex = FilePickerExplorer::new();
    let (bx, by) = body_of(0);
    ex.mouse_down(&mut data, bx, by, 100);
    let (tx, ty) = toggle_of(0);
    ex.mouse_down(&mut data, tx, ty, 200);
    assert_eq!(ex.last_left_click, Some((0, 100)));
}

#[test]
fn click_below_listing_does_nothing() {
    let mut data = session();
    let mut ex = FilePickerExplorer::new();
    let acts = ex.mouse_down(&mut data, 10, 25 * 7, 0);
    assert!(acts.is_empty());
    assert_eq!(data.index, None);
    assert_eq!(ex.last_left_click, None);
}

#[test]
fn row_under_pointer_and_hover() {
    let data = session();
    let ex = FilePickerExplorer::default();
    assert_eq!(ex.row_at(0), 0);
    assert_eq!(ex.row_at(24), 0);
    assert_eq!(ex.row_at(25), 1);
    assert_eq!(ex.row_at(99), 3);
    assert!(ex.hover(&data, 30));
    assert!(!ex.hover(&data, 50));
}

#[test]
fn visible_rows_follow_band() {
    let mut data = FilePickerData::new();
    data.init_home(&p(&["h"]));
    let many: Vec<DirEntry> = (0..10).map(|i| entry(&format!("f{}", i), false)).collect();
    data.set_item_children(&p(&["h"]), &many);
    let ex = FilePickerExplorer::new();
    let rows = ex.visible_rows(&data, 50, 99);
    let idx: Vec<usize> = rows.iter().map(|r| r.index).collect();
    assert_eq!(idx, vec![2, 3, 4]);
    assert_eq!(rows[0].path, p(&["h", "f2"]));
    assert_eq!(rows[0].level, 1);
    assert!(!rows[0].is_dir);
    let tail = ex.visible_rows(&data, 225, 400);
    let idx: Vec<usize> = tail.iter().map(|r| r.index).collect();
    assert_eq!(idx, vec![9]);
    assert!(ex.visible_rows(&data, 1000, 2000).is_empty());
}

#[test]
fn path_bar_goes_up() {
    let mut data = session();
    data.pwd = p(&["home", "proj"]);
    let mut bar = FilePickerPwd::new();
    bar.layout(500, 60, 30);
    assert_eq!(bar.icons.len(), 1);
    assert_eq!((bar.icons[0].x0, bar.icons[0].y0, bar.icons[0].x1, bar.icons[0].y1), (455, 15, 485, 45));
    assert!(bar.icon_hit_test(460, 20));
    assert!(!bar.icon_hit_test(10, 20));
    bar.mouse_down(&mut data, 10, 20);
    assert_eq!(data.pwd, p(&["home", "proj"]));
    bar.mouse_down(&mut data, 460, 20);
    assert_eq!(data.pwd, p(&["home"]));
    bar.mouse_down(&mut data, 460, 20);
    assert_eq!(data.pwd, p(&[]));
    bar.mouse_down(&mut data, 460, 20);
    assert_eq!(data.pwd, p(&[]));
}

#[test]
fn confirm_on_directory_sets_workspace() {
    let mut data = session();
    data.index = Some(0);
    let acts = FilePickerControl::confirm(&mut data);
    assert_eq!(acts.len(), 1);
    match &acts[0] {
        PickerAction::SetWorkspace(q) => assert_eq!(*q, p(&["home", "proj"])),
        _ => panic!("expected a workspace"),
    }
    assert!(data.active);
}

#[test]
fn confirm_on_file_opens_and_closes() {
    let mut data = session();
    data.index = Some(1);
    let acts = FilePickerControl::confirm(&mut data);
    assert_eq!(acts.len(), 2);
    assert!(matches!(&acts[0], PickerAction::OpenFile(q) if *q == p(&["home", "notes.txt"])));
    assert!(matches!(acts[1], PickerAction::ClosePicker));
    assert!(!data.active);
}

#[test]
fn confirm_without_selection_does_nothing() {
    let mut data = session();
    assert!(FilePickerControl::confirm(&mut data).is_empty());
    data.index = Some(9);
    assert!(FilePickerControl::confirm(&mut data).is_empty());
    assert!(data.active);
}

#[test]
fn control_bar_layout_and_buttons() {
    let mut data = session();
    data.index = Some(1);
    let mut bar = FilePickerControl::default();
    bar.layout(500, 40, 50);
    assert_eq!(bar.buttons.len(), 2);
    assert!(matches!(bar.buttons[0].kind, ButtonKind::Open));
    let r0 = &bar.buttons[0].rect;
    assert_eq!((r0.x0, r0.y0, r0.x1, r0.y1), (424, 12, 488, 37));
    let r1 = &bar.buttons[1].rect;
    assert_eq!((r1.x0, r1.y0, r1.x1, r1.y1), (338, 12, 412, 37));
    assert!(bar.icon_hit_test(400, 20));
    assert!(!bar.icon_hit_test(400, 45));
    let none = bar.mouse_down(&mut data, 10, 20);
    assert!(none.is_empty());
    let cancel = bar.mouse_down(&mut data, 400, 20);
    assert_eq!(cancel.len(), 1);
    assert!(matches!(cancel[0], PickerAction::ClosePicker));
    assert!(data.active);
    let open = bar.mouse_down(&mut data, 450, 20);
    assert_eq!(open.len(), 2);
    assert!(!data.active);
    let c = FilePickerControl::cancel();
    assert!(matches!(c[0], PickerAction::ClosePicker));
}

#[test]
fn panel_routes_only_while_active() {
    let mut data = session();
    let mut fp = FilePicker::new();
    fp.layout(60, 30, 40, 50);
    assert_eq!(fp.pwd_height, 60);
    data.active = false;
    let acts = fp.mouse_down(&mut data, 200, 70, 0, 0);
    assert!(acts.is_empty());
    assert_eq!(data.index, None);
    data.active = true;
    fp.mouse_down(&mut data, 200, 70, 0, 0);
    assert_eq!(data.index, Some(0));
    fp.mouse_down(&mut data, 200, 70 + 25, 0, 10);
    assert_eq!(data.index, Some(1));
    fp.mouse_down(&mut data, 200, 70, 25, 1000);
    assert_eq!(data.index, Some(1));
    let acts = fp.mouse_down(&mut data, 400, 370, 0, 30);
    assert!(matches!(acts[0], PickerAction::ClosePicker));
    fp.mouse_down(&mut data, 460, 20, 0, 40);
    assert_eq!(data.pwd, p(&[]));
}

#[test]
fn listing_height_follows_counts() {
    let mut data = session();
    let ex = FilePickerExplorer::new();
    assert_eq!(ex.listing_height(&data, 999), 50);
    data.pwd = p(&["elsewhere"]);
    assert_eq!(ex.listing_height(&data, 999), 999);
}

#[test]
fn relayout_when_rows_or_directory_change() {
    let before = session();
    let mut after = session();
    assert!(!FilePickerExplorer::needs_layout(&before, &after));
    after.pwd = p(&["home", "proj"]);
    assert!(FilePickerExplorer::needs_layout(&before, &after));
    let mut grown = session();
    grown.set_item_children(&p(&["home", "proj"]), &vec![entry("src", true)]);
    assert!(FilePickerExplorer::needs_layout(&before, &grown));
    let mut renamed = session();
    renamed.pwd = p(&["hom"]);
    assert!(FilePickerExplorer::needs_layout(&before, &renamed));
}
