use wmfocus::windows::client_to_window;
use wmfocus::windows::focus_window;
use wmfocus::windows::get_windows;
use wmfocus::windows::hint_def_of;
use wmfocus::windows::sort_by_pos;
use wmfocus::windows::DesktopInfo;
use wmfocus::windows::DesktopWindow;
use wmfocus::windows::Geometry;
use wmfocus::windows::HintDef;
use wmfocus::windows::MonitorInfo;
use wmfocus::windows::NodeInfo;

fn def(value: i64, x: i32, y: i32) -> HintDef {
    HintDef { value, pos: (x, y), highlight: false }
}

fn values(defs: &Vec<HintDef>) -> Vec<i64> {
    defs.iter().map(|d| d.value).collect()
}

#[test]
fn windows_are_read_line_by_line() {
    let defs = vec![def(1, 100, 100), def(2, 0, 100), def(3, 100, 0), def(4, 0, 0)];
    assert_eq!(values(&sort_by_pos(defs)), vec![4, 3, 2, 1]);
}

#[test]
fn windows_at_one_place_keep_their_order() {
    let defs = vec![def(1, 5, 5), def(2, 0, 0), def(3, 5, 5), def(4, 0, 0), def(5, 5, 5)];
    assert_eq!(values(&sort_by_pos(defs)), vec![2, 4, 1, 3, 5]);
}

#[test]
fn sorted_windows_stay() {
    let defs = vec![def(1, -3, -3), def(2, 0, 0), def(3, 7, 0), def(4, -50, 1)];
    assert_eq!(sort_by_pos(defs.clone()), defs);
    assert_eq!(sort_by_pos(Vec::new()), Vec::new());
}

#[test]
fn sorting_keeps_every_window() {
    let mut defs: Vec<HintDef> = Vec::new();
    for i in 0..50i64 {
        defs.push(HintDef { value: i, pos: (((i * 37) % 11) as i32, ((i * 17) % 7) as i32), highlight: i % 2 == 0 });
    }
    let sorted = sort_by_pos(defs.clone());
    assert_eq!(sorted.len(), defs.len());
    for w in sorted.windows(2) {
        assert!((w[0].pos.1, w[0].pos.0) <= (w[1].pos.1, w[1].pos.0));
        if w[0].pos == w[1].pos {
            assert!(w[0].value < w[1].value);
        }
    }
    let mut seen = values(&sorted);
    seen.sort();
    assert_eq!(seen, (0..50).collect::<Vec<i64>>());
    for d in &sorted {
        assert_eq!(d.highlight, d.value % 2 == 0);
    }
}

fn geometry(x: i32, y: i32) -> Geometry {
    Geometry { x, y, width: 640, height: 480 }
}

fn node(id: u32, hidden: bool, client: Option<Geometry>) -> NodeInfo {
    NodeInfo { id, hidden, client }
}

#[test]
fn a_client_becomes_a_window() {
    let window = client_to_window(7, Geometry { x: -3, y: 20, width: 640, height: 480 }, 7);
    assert_eq!(
        window,
        DesktopWindow { id: 7, x_window_id: Some(7), pos: (-3, 20), size: (640, 480), is_focused: true }
    );
    let other = client_to_window(8, geometry(0, 0), 7);
    assert!(!other.is_focused);
    assert_eq!(other.id, 8);
}

#[test]
fn a_large_node_number_wraps_as_a_window_number() {
    assert_eq!(client_to_window(0x7fff_ffff, geometry(0, 0), 0).x_window_id, Some(i32::MAX));
    assert_eq!(client_to_window(0x8000_0000, geometry(0, 0), 0).x_window_id, Some(i32::MIN));
    assert_eq!(client_to_window(0xffff_ffff, geometry(0, 0), 0).x_window_id, Some(-1));
    assert_eq!(client_to_window(0xffff_ffff, geometry(0, 0), 0).id, 0xffff_ffff);
    assert_eq!(client_to_window(0x0260_0003, geometry(0, 0), 0).x_window_id, Some(0x0260_0003u32 as i32));
}

#[test]
fn only_shown_windows_are_listed() {
    let monitors = vec![
        MonitorInfo {
            focused_desktop_id: 2,
            desktops: vec![
                DesktopInfo { id: 1, focused_node_id: 10, nodes: vec![node(10, false, Some(geometry(0, 0)))] },
                DesktopInfo {
                    id: 2,
                    focused_node_id: 22,
                    nodes: vec![
                        node(20, false, None),
                        node(21, false, Some(geometry(0, 0))),
                        node(22, false, Some(geometry(640, 0))),
                        node(23, true, Some(geometry(0, 480))),
                        node(24, true, None),
                    ],
                },
            ],
        },
        MonitorInfo {
            focused_desktop_id: 5,
            desktops: vec![
                DesktopInfo { id: 5, focused_node_id: 0, nodes: vec![node(50, false, Some(geometry(1920, 0)))] },
                DesktopInfo { id: 6, focused_node_id: 60, nodes: vec![node(60, false, Some(geometry(1920, 0)))] },
                DesktopInfo { id: 5, focused_node_id: 51, nodes: vec![node(51, false, Some(geometry(1920, 9)))] },
            ],
        },
        MonitorInfo { focused_desktop_id: 9, desktops: Vec::new() },
    ];
    let windows = get_windows(&monitors);
    assert_eq!(
        windows,
        vec![
            client_to_window(21, geometry(0, 0), 22),
            client_to_window(22, geometry(640, 0), 22),
            client_to_window(50, geometry(1920, 0), 0),
            client_to_window(51, geometry(1920, 9), 51),
        ]
    );
    assert_eq!(windows.iter().map(|w| w.is_focused).collect::<Vec<bool>>(), vec![false, true, false, true]);
    assert_eq!(get_windows(&Vec::new()), Vec::new());
}

#[test]
fn a_window_becomes_a_hint_definition() {
    let window = client_to_window(22, geometry(640, 0), 22);
    assert_eq!(hint_def_of(&window), HintDef { value: 22, pos: (640, 0), highlight: true });
}

#[test]
fn the_focus_command_names_the_node() {
    let mut window = client_to_window(0x0260_0003, geometry(0, 0), 0);
    assert_eq!(focus_window(&window), "node 39845891 -f");
    window.id = 0;
    assert_eq!(focus_window(&window), "node 0 -f");
    window.id = 7;
    assert_eq!(focus_window(&window), "node 7 -f");
    window.id = 10;
    assert_eq!(focus_window(&window), "node 10 -f");
    window.id = -42;
    assert_eq!(focus_window(&window), "node -42 -f");
    window.id = i64::MAX;
    assert_eq!(focus_window(&window), format!("node {} -f", i64::MAX));
    window.id = i64::MIN;
    assert_eq!(focus_window(&window), format!("node {} -f", i64::MIN));
}
