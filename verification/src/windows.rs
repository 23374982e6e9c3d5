use vstd::prelude::*;
use crate::text::chars_of;
use crate::text::string_of;

verus! {

/// A window that can be chosen: the value that is reported when it is, the place of
/// its top left corner, and whether it is drawn as the current window.
#[derive(Debug, Clone, Copy, PartialEq, Eq)]
pub struct HintDef {
    pub value: i64,
    pub pos: (i32, i32),
    pub highlight: bool,
}

/// Whether the place `a` comes before the place `b` when the screen is read line by
/// line: it is higher up, or as high and further left.
pub open spec fn comes_before(a: (i32, i32), b: (i32, i32)) -> bool {
    a.1 < b.1 || (a.1 == b.1 && a.0 < b.0)
}

/// Whether the windows stand in the order of their places.
pub open spec fn in_order(defs: Seq<HintDef>) -> bool {
    forall|i: int, j: int|
        0 <= i < j < defs.len() ==> !comes_before((#[trigger] defs[j]).pos, (#[trigger] defs[i]).pos)
}

/// The windows of `defs` at the place `pos`, in the order of `defs`.
pub open spec fn windows_at(defs: Seq<HintDef>, pos: (i32, i32)) -> Seq<HintDef> {
    defs.filter(at_place(pos))
}

/// The test that `windows_at` keeps a window by.
pub open spec fn at_place(pos: (i32, i32)) -> spec_fn(HintDef) -> bool {
    |d: HintDef| d.pos == pos
}

/// No window is kept of windows that are all at other places.
proof fn lemma_none_at(defs: Seq<HintDef>, pos: (i32, i32))
    requires
        forall|i: int| 0 <= i < defs.len() ==> (#[trigger] defs[i]).pos != pos,
    ensures
        windows_at(defs, pos) == Seq::<HintDef>::empty(),
    decreases defs.len(),
{
    reveal(Seq::filter);
    if defs.len() > 0 {
        assert(defs[defs.len() - 1].pos != pos);
        lemma_none_at(defs.drop_last(), pos);
    }
}

/// Of one window, the window is kept where it is at the place, and nothing else.
proof fn lemma_one_at(d: HintDef, pos: (i32, i32))
    ensures
        windows_at(seq![d], pos) == if d.pos == pos {
            seq![d]
        } else {
            Seq::<HintDef>::empty()
        },
{
    reveal(Seq::filter);
    assert(seq![d].drop_last() =~= Seq::<HintDef>::empty());
    assert(windows_at(seq![d].drop_last(), pos) =~= Seq::<HintDef>::empty());
    assert(seq![d].last() == d);
    if d.pos == pos {
        assert(windows_at(seq![d], pos) =~= seq![d]);
    }
}

/// Puts `d` into the sorted `out`, behind every window that does not come after it.
fn insert_by_pos(out: &mut Vec<HintDef>, d: HintDef)
    requires
        in_order(old(out)@),
    ensures
        in_order(final(out)@),
        final(out).len() == old(out).len() + 1,
        final(out)@.to_multiset() == old(out)@.to_multiset().insert(d),
        forall|pos: (i32, i32)| #[trigger]
            windows_at(final(out)@, pos) == if d.pos == pos {
                windows_at(old(out)@, pos).push(d)
            } else {
                windows_at(old(out)@, pos)
            },
{
    let mut p: usize = 0;
    while p < out.len() && !(d.pos.1 < out[p].pos.1 || (d.pos.1 == out[p].pos.1 && d.pos.0
        < out[p].pos.0))
        invariant
            p <= out.len(),
            out@ == old(out)@,
            forall|j: int| 0 <= j < p ==> !comes_before(d.pos, (#[trigger] out@[j]).pos),
        decreases out.len() - p,
    {
        p += 1;
    }
    let ghost before = out@;
    let ghost head = before.take(p as int);
    let ghost tail = before.skip(p as int);
    out.insert(p, d);
    proof {
        assert(before =~= head + tail);
        assert(out@ =~= head + seq![d] + tail);
        assert forall|j: int| 0 <= j < tail.len() implies comes_before(
            d.pos,
            (#[trigger] tail[j]).pos,
        ) by {
            assert(tail[j] == before[p + j]);
            assert(comes_before(d.pos, before[p as int].pos));
            if j > 0 {
                assert(!comes_before(before[p + j].pos, before[p as int].pos));
            }
        }
        assert forall|i: int, j: int| 0 <= i < j < out@.len() implies !comes_before(
            (#[trigger] out@[j]).pos,
            (#[trigger] out@[i]).pos,
        ) by {
            if j < p {
                assert(out@[i] == before[i] && out@[j] == before[j]);
            } else if j == p {
                assert(out@[i] == before[i]);
            } else if i < p {
                assert(out@[i] == before[i] && out@[j] == before[j - 1]);
            } else if i == p {
                assert(out@[j] == tail[j - p - 1]);
            } else {
                assert(out@[i] == before[i - 1] && out@[j] == before[j - 1]);
            }
        }
        assert forall|pos: (i32, i32)| #[trigger]
            windows_at(out@, pos) == if d.pos == pos {
                windows_at(before, pos).push(d)
            } else {
                windows_at(before, pos)
            } by {
            Seq::filter_distributes_over_add(head, tail, at_place(pos));
            Seq::filter_distributes_over_add(head, seq![d], at_place(pos));
            Seq::filter_distributes_over_add(head + seq![d], tail, at_place(pos));
            lemma_one_at(d, pos);
            if d.pos == pos {
                lemma_none_at(tail, pos);
                assert(windows_at(out@, pos) =~= windows_at(before, pos).push(d));
            } else {
                assert(windows_at(out@, pos) =~= windows_at(before, pos));
            }
        }
        vstd::seq_lib::to_multiset_insert(before, p as int, d);
    }
}

/// The windows in the order of their places: from the top of the screen down, and
/// from left to right where they are equally high. Windows at one place keep their
/// order.
pub fn sort_by_pos(defs: Vec<HintDef>) -> (out: Vec<HintDef>)
    ensures
        in_order(out@),
        out.len() == defs.len(),
        out@.to_multiset() == defs@.to_multiset(),
        forall|pos: (i32, i32)| #[trigger] windows_at(out@, pos) == windows_at(defs@, pos),
{
    let mut out: Vec<HintDef> = Vec::new();
    let mut i: usize = 0;
    proof {
        assert(defs@.take(0) =~= out@);
    }
    while i < defs.len()
        invariant
            i <= defs.len(),
            in_order(out@),
            out.len() == i,
            out@.to_multiset() == defs@.take(i as int).to_multiset(),
            forall|pos: (i32, i32)| #[trigger]
                windows_at(out@, pos) == windows_at(defs@.take(i as int), pos),
        decreases defs.len() - i,
    {
        let ghost before = out@;
        let d = defs[i];
        insert_by_pos(&mut out, d);
        proof {
            let sofar = defs@.take(i as int);
            assert(defs@.take(i + 1) =~= sofar + seq![d]);
            assert(defs@.take(i + 1) =~= sofar.push(d));
            vstd::seq_lib::to_multiset_build(sofar, d);
            assert forall|pos: (i32, i32)| #[trigger]
                windows_at(out@, pos) == windows_at(defs@.take(i + 1), pos) by {
                Seq::filter_distributes_over_add(sofar, seq![d], at_place(pos));
                lemma_one_at(d, pos);
                assert(windows_at(before, pos) == windows_at(sofar, pos));
                if d.pos == pos {
                    assert(windows_at(defs@.take(i + 1), pos) =~= windows_at(sofar, pos).push(d));
                } else {
                    assert(windows_at(defs@.take(i + 1), pos) =~= windows_at(sofar, pos));
                }
            }
        }
        i += 1;
    }
    assert(defs@.take(i as int) == defs@);
    out
}

/// A window as the window manager describes it.
#[derive(Debug, Clone, Copy, PartialEq, Eq)]
pub struct DesktopWindow {
    pub id: i64,
    pub x_window_id: Option<i32>,
    pub pos: (i32, i32),
    pub size: (i32, i32),
    pub is_focused: bool,
}

/// The place and the size of a client window: `x`, `y`, width and height.
#[derive(Debug, Clone, Copy, PartialEq, Eq)]
pub struct Geometry {
    pub x: i32,
    pub y: i32,
    pub width: i32,
    pub height: i32,
}

/// A node of a desktop's tree: its number, whether it is hidden, and the geometry of
/// its client window where it has one.
#[derive(Debug, Clone, Copy, PartialEq, Eq)]
pub struct NodeInfo {
    pub id: u32,
    pub hidden: bool,
    pub client: Option<Geometry>,
}

/// A desktop: its number, the number of its focused node, and the nodes of its tree
/// in the order in which the tree is walked.
#[derive(Debug, Clone)]
pub struct DesktopInfo {
    pub id: u32,
    pub focused_node_id: u32,
    pub nodes: Vec<NodeInfo>,
}

/// A monitor: the number of the desktop that it shows, and its desktops.
#[derive(Debug, Clone)]
pub struct MonitorInfo {
    pub focused_desktop_id: u32,
    pub desktops: Vec<DesktopInfo>,
}

/// The number `id` read as a signed number of 32 bits.
pub open spec fn signed(id: u32) -> int {
    if id < 0x8000_0000 {
        id as int
    } else {
        id - 0x1_0000_0000
    }
}

/// The window of the node `id` with the given geometry, on a desktop whose focused
/// node is `focused_node_id`.
pub open spec fn window_of(id: u32, geometry: Geometry, focused_node_id: u32) -> DesktopWindow {
    DesktopWindow {
        id: id as i64,
        x_window_id: Some(signed(id) as i32),
        pos: (geometry.x, geometry.y),
        size: (geometry.width, geometry.height),
        is_focused: id == focused_node_id,
    }
}

/// Whether a node stands for a window that can be seen.
pub open spec fn is_shown(node: NodeInfo) -> bool {
    !node.hidden && node.client is Some
}

/// The windows of the nodes of a desktop that can be seen, in the order of the nodes.
pub open spec fn desktop_windows(nodes: Seq<NodeInfo>, focused_node_id: u32) -> Seq<DesktopWindow>
    decreases nodes.len(),
{
    if nodes.len() == 0 {
        Seq::empty()
    } else {
        let front = desktop_windows(nodes.drop_last(), focused_node_id);
        if is_shown(nodes.last()) {
            front.push(window_of(nodes.last().id, nodes.last().client.unwrap(), focused_node_id))
        } else {
            front
        }
    }
}

/// The windows of those of `desktops` that have the number `shown`, in the order
/// of the desktops.
pub open spec fn monitor_windows(desktops: Seq<DesktopInfo>, shown: u32) -> Seq<DesktopWindow>
    decreases desktops.len(),
{
    if desktops.len() == 0 {
        Seq::empty()
    } else {
        let front = monitor_windows(desktops.drop_last(), shown);
        if desktops.last().id == shown {
            front + desktop_windows(desktops.last().nodes@, desktops.last().focused_node_id)
        } else {
            front
        }
    }
}

/// The windows on the desktops that the monitors show, monitor by monitor.
pub open spec fn shown_windows(monitors: Seq<MonitorInfo>) -> Seq<DesktopWindow>
    decreases monitors.len(),
{
    if monitors.len() == 0 {
        Seq::empty()
    } else {
        shown_windows(monitors.drop_last()) + monitor_windows(
            monitors.last().desktops@,
            monitors.last().focused_desktop_id,
        )
    }
}

/// The window of the node `id` with the given geometry, on a desktop whose focused
/// node is `focused_node_id`.
pub fn client_to_window(id: u32, geometry: Geometry, focused_node_id: u32) -> (window:
    DesktopWindow)
    ensures
        window == window_of(id, geometry, focused_node_id),
{
    let x_window_id: i32 = if id < 0x8000_0000 {
        id as i32
    } else {
        ((id - 0x8000_0000) as i32) + i32::MIN
    };
    DesktopWindow {
        id: id as i64,
        x_window_id: Some(x_window_id),
        pos: (geometry.x, geometry.y),
        size: (geometry.width, geometry.height),
        is_focused: id == focused_node_id,
    }
}

/// The windows that can be seen: on each monitor, those of the desktop that it
/// shows, which are not hidden and have a client window.
pub fn get_windows(monitors: &Vec<MonitorInfo>) -> (windows: Vec<DesktopWindow>)
    ensures
        windows@ == shown_windows(monitors@),
{
    let mut windows: Vec<DesktopWindow> = Vec::new();
    let mut m: usize = 0;
    assert(monitors@.take(0) =~= Seq::<MonitorInfo>::empty());
    while m < monitors.len()
        invariant
            m <= monitors.len(),
            windows@ == shown_windows(monitors@.take(m as int)),
        decreases monitors.len() - m,
    {
        let mon = &monitors[m];
        let ghost before = windows@;
        let mut d: usize = 0;
        assert(mon.desktops@.take(0) =~= Seq::<DesktopInfo>::empty());
        assert(before + Seq::<DesktopWindow>::empty() =~= before);
        while d < mon.desktops.len()
            invariant
                d <= mon.desktops.len(),
                windows@ == before + monitor_windows(
                    mon.desktops@.take(d as int),
                    mon.focused_desktop_id,
                ),
            decreases mon.desktops.len() - d,
        {
            let desk = &mon.desktops[d];
            let ghost sofar = windows@;
            proof {
                assert(mon.desktops@.take(d + 1).drop_last() == mon.desktops@.take(d as int));
                assert(mon.desktops@.take(d + 1).last() == *desk);
            }
            if desk.id == mon.focused_desktop_id {
                let mut n: usize = 0;
                assert(desk.nodes@.take(0) =~= Seq::<NodeInfo>::empty());
                assert(sofar + Seq::<DesktopWindow>::empty() =~= sofar);
                while n < desk.nodes.len()
                    invariant
                        n <= desk.nodes.len(),
                        windows@ == sofar + desktop_windows(
                            desk.nodes@.take(n as int),
                            desk.focused_node_id,
                        ),
                    decreases desk.nodes.len() - n,
                {
                    let node = desk.nodes[n];
                    let ghost seen = desktop_windows(desk.nodes@.take(n as int), desk.focused_node_id);
                    proof {
                        assert(desk.nodes@.take(n + 1).drop_last() == desk.nodes@.take(n as int));
                        assert(desk.nodes@.take(n + 1).last() == node);
                    }
                    if !node.hidden {
                        match node.client {
                            Some(geometry) => {
                                let window = client_to_window(node.id, geometry, desk.focused_node_id);
                                windows.push(window);
                                assert(windows@ =~= sofar + seen.push(window));
                            },
                            None => {},
                        }
                    }
                    n += 1;
                }
                assert(desk.nodes@.take(n as int) == desk.nodes@);
                proof {
                    let own = desktop_windows(desk.nodes@, desk.focused_node_id);
                    let front = monitor_windows(mon.desktops@.take(d as int), mon.focused_desktop_id);
                    assert(windows@ =~= before + (front + own));
                }
            }
            d += 1;
        }
        proof {
            assert(mon.desktops@.take(d as int) == mon.desktops@);
            assert(monitors@.take(m + 1).drop_last() == monitors@.take(m as int));
            assert(monitors@.take(m + 1).last() == *mon);
        }
        m += 1;
    }
    assert(monitors@.take(m as int) == monitors@);
    windows
}

/// What the hints are made for: the window's number as the value to report, its
/// place, and whether it has the focus.
pub fn hint_def_of(window: &DesktopWindow) -> (def: HintDef)
    ensures
        def == (HintDef { value: window.id, pos: window.pos, highlight: window.is_focused }),
{
    HintDef { value: window.id, pos: window.pos, highlight: window.is_focused }
}

/// The digit that stands for `d`.
pub open spec fn digit(d: int) -> char {
    "0123456789"@[d]
}

/// The decimal numeral of `n`, without leading zeros.
pub open spec fn numeral(n: nat) -> Seq<char>
    decreases n,
{
    if n < 10 {
        seq![digit(n as int)]
    } else {
        numeral(n / 10).push(digit((n % 10) as int))
    }
}

/// The decimal numeral of `n`, with a minus sign before it where `n` is negative.
pub open spec fn decimal(n: int) -> Seq<char> {
    if n < 0 {
        seq!['-'] + numeral((-n) as nat)
    } else {
        numeral(n as nat)
    }
}

/// The command that has the window manager give the focus to the node `id`.
pub open spec fn focus_command(id: i64) -> Seq<char> {
    "node "@ + decimal(id as int) + " -f"@
}

/// The decimal numeral of `n`.
fn numeral_of(n: u64) -> (out: Vec<char>)
    ensures
        out@ == numeral(n as nat),
    decreases n,
{
    let digits = chars_of("0123456789");
    proof {
        reveal_strlit("0123456789");
    }
    if n < 10 {
        let mut out: Vec<char> = Vec::new();
        out.push(digits[n as usize]);
        assert(out@ =~= seq![digit(n as int)]);
        out
    } else {
        let mut out = numeral_of(n / 10);
        out.push(digits[(n % 10) as usize]);
        out
    }
}

/// The command that has the window manager give the focus to `window`: the word
/// `node`, the window's number, and `-f`.
pub fn focus_window(window: &DesktopWindow) -> (command: String)
    ensures
        command@ == focus_command(window.id),
{
    let mut text = chars_of("node ");
    let ghost head = text@;
    let size: u64 = if window.id < 0 {
        text.push('-');
        ((-(window.id + 1)) as u64) + 1
    } else {
        window.id as u64
    };
    let mut number = numeral_of(size);
    text.append(&mut number);
    let mut tail = chars_of(" -f");
    text.append(&mut tail);
    proof {
        if window.id < 0 {
            assert(text@ =~= head + (seq!['-'] + numeral((-window.id) as nat)) + " -f"@);
        } else {
            assert(text@ =~= head + numeral(window.id as nat) + " -f"@);
        }
    }
    string_of(&text)
}

} // verus!
