use vstd::prelude::*;
use crate::hints::distinct_symbols;
use crate::hints::enough_symbols;
use crate::hints::hint_labels;
use crate::hints::lemma_distinct_symbols;
use crate::hints::lemma_generated_prefix_free;
use crate::hints::lemma_hint_symbols;
use crate::hints::prefix_free;
use crate::layout::layout_of;
use crate::layout::pairwise_disjoint;
use crate::layout::resolve_layout;
use crate::layout::Rect;
use crate::sequence::exit_requested;
use crate::sequence::pressed;
use crate::sequence::released;
use crate::sequence::sequences_view;
use crate::sequence::Sequence;
use crate::text::chars_of;
use crate::text::ends_with;
use crate::text::holds_symbol;
use crate::text::same_text;
use crate::text::starts_with;
use crate::text::string_of;
use crate::text::strings_view;
use crate::windows::HintDef;

verus! {

/// A window with the hint that chooses it and the box that the hint is drawn in.
#[derive(Debug, Clone)]
pub struct HintWindow {
    pub hint: String,
    pub def: HintDef,
    pub rect: Rect,
}

/// The hints of `windows`, in order.
pub open spec fn labels_of(windows: Seq<HintWindow>) -> Seq<Seq<char>> {
    Seq::new(windows.len(), |i: int| windows[i].hint@)
}

/// The boxes of `windows`, in order.
pub open spec fn rects_of(windows: Seq<HintWindow>) -> Seq<Rect> {
    Seq::new(windows.len(), |i: int| windows[i].rect)
}

/// The boxes that the hints start from: each of its size, at the place of its window.
pub open spec fn initial_rects(defs: Seq<HintDef>, sizes: Seq<(u16, u16)>) -> Seq<Rect> {
    Seq::new(
        defs.len(),
        |i: int|
            Rect { x: defs[i].pos.0, y: defs[i].pos.1, width: sizes[i].0, height: sizes[i].1 },
    )
}

/// Why the windows and their hints make no table.
#[derive(Debug, Clone, Copy, PartialEq, Eq, Structural)]
pub enum TableError {
    /// There are not as many hints, or not as many sizes, as windows.
    CountMismatch,
    /// One hint is the beginning of another, or equal to it.
    AmbiguousHints,
    /// A box would have to move out of range to stand clear of the others.
    OutOfRange,
}

/// Whether none of `hints` is the beginning of another.
pub fn is_prefix_free(hints: &Vec<String>) -> (free: bool)
    ensures
        free == prefix_free(strings_view(hints@)),
{
    let mut words: Vec<Vec<char>> = Vec::new();
    let mut k: usize = 0;
    while k < hints.len()
        invariant
            k <= hints.len(),
            words.len() == k,
            forall|x: int| 0 <= x < k ==> (#[trigger] words@[x])@ == hints@[x]@,
        decreases hints.len() - k,
    {
        words.push(chars_of(hints[k].as_str()));
        k += 1;
    }
    let ghost labels = strings_view(hints@);
    let mut i: usize = 0;
    while i < words.len()
        invariant
            i <= words.len(),
            words.len() == hints.len(),
            labels == strings_view(hints@),
            forall|x: int| 0 <= x < words.len() ==> (#[trigger] words@[x])@ == hints@[x]@,
            forall|a: int, b: int|
                0 <= a < i && 0 <= b < labels.len() && a != b ==> !(#[trigger] labels[a]).is_prefix_of(
                    #[trigger] labels[b],
                ),
        decreases words.len() - i,
    {
        let mut j: usize = 0;
        while j < words.len()
            invariant
                i < words.len(),
                j <= words.len(),
                words.len() == hints.len(),
                labels == strings_view(hints@),
                forall|x: int| 0 <= x < words.len() ==> (#[trigger] words@[x])@ == hints@[x]@,
                forall|b: int|
                    0 <= b < j && i != b ==> !labels[i as int].is_prefix_of(#[trigger] labels[b]),
            decreases words.len() - j,
        {
            if i != j && starts_with(&words[j], &words[i]) {
                assert(labels[i as int].is_prefix_of(labels[j as int]));
                return false;
            }
            j += 1;
        }
        i += 1;
    }
    true
}

/// The windows to choose from, each with its hint and the box of its hint.
#[derive(Debug, Clone)]
pub struct LabelTable {
    windows: Vec<HintWindow>,
}

impl View for LabelTable {
    type V = Seq<HintWindow>;

    closed spec fn view(&self) -> Seq<HintWindow> {
        self.windows@
    }
}

impl LabelTable {
    /// What holds of every table: no hint is the beginning of another, and no two
    /// boxes share a point.
    pub open spec fn wf(&self) -> bool {
        &&& prefix_free(labels_of(self@))
        &&& pairwise_disjoint(rects_of(self@))
    }

    /// The table of `defs`, each with the hint of its index and with a box of the size
    /// of its index. The boxes start at the windows' places and are moved apart in the
    /// order of the windows.
    pub fn new(defs: &Vec<HintDef>, hints: &Vec<String>, sizes: &Vec<(u16, u16)>) -> (result:
        Result<LabelTable, TableError>)
        ensures
            match result {
                Ok(table) => {
                    &&& table.wf()
                    &&& table@.len() == defs.len() == hints.len() == sizes.len()
                    &&& labels_of(table@) == strings_view(hints@)
                    &&& forall|i: int| 0 <= i < defs.len() ==> (#[trigger] table@[i]).def == defs[i]
                    &&& layout_of(initial_rects(defs@, sizes@)) == Some(rects_of(table@))
                },
                Err(TableError::CountMismatch) => defs.len() != hints.len() || defs.len()
                    != sizes.len(),
                Err(TableError::AmbiguousHints) => {
                    &&& defs.len() == hints.len() == sizes.len()
                    &&& !prefix_free(strings_view(hints@))
                },
                Err(TableError::OutOfRange) => {
                    &&& defs.len() == hints.len() == sizes.len()
                    &&& prefix_free(strings_view(hints@))
                    &&& layout_of(initial_rects(defs@, sizes@)) is None
                },
            },
    {
        if defs.len() != hints.len() || defs.len() != sizes.len() {
            return Err(TableError::CountMismatch);
        }
        if !is_prefix_free(hints) {
            return Err(TableError::AmbiguousHints);
        }
        let mut initial: Vec<Rect> = Vec::new();
        let mut i: usize = 0;
        while i < defs.len()
            invariant
                i <= defs.len(),
                defs.len() == sizes.len(),
                initial.len() == i,
                forall|j: int| 0 <= j < i ==> #[trigger] initial@[j] == initial_rects(defs@, sizes@)[j],
            decreases defs.len() - i,
        {
            initial.push(
                Rect {
                    x: defs[i].pos.0,
                    y: defs[i].pos.1,
                    width: sizes[i].0,
                    height: sizes[i].1,
                },
            );
            i += 1;
        }
        assert(initial@ =~= initial_rects(defs@, sizes@));
        let rects = match resolve_layout(&initial) {
            Ok(rects) => rects,
            Err(_) => {
                return Err(TableError::OutOfRange);
            },
        };
        let mut windows: Vec<HintWindow> = Vec::new();
        let mut i: usize = 0;
        while i < defs.len()
            invariant
                i <= defs.len(),
                defs.len() == hints.len(),
                defs.len() == rects.len(),
                windows.len() == i,
                forall|j: int|
                    0 <= j < i ==> {
                        &&& (#[trigger] windows@[j]).hint@ == hints@[j]@
                        &&& windows@[j].def == defs@[j]
                        &&& windows@[j].rect == rects@[j]
                    },
            decreases defs.len() - i,
        {
            windows.push(HintWindow { hint: hints[i].clone(), def: defs[i], rect: rects[i] });
            i += 1;
        }
        let table = LabelTable { windows };
        assert(labels_of(table@) =~= strings_view(hints@));
        assert(rects_of(table@) =~= rects@);
        Ok(table)
    }
}

/// What the display server reports to the session.
#[derive(Debug, Clone)]
pub enum Event {
    /// The connection has ended.
    Closed,
    /// A hint has to be drawn again.
    Expose,
    /// A mouse button has gone down.
    ButtonPress,
    /// The key of this name has gone down.
    KeyPress(String),
    /// The key of this name has come up.
    KeyRelease(String),
    /// Anything else.
    Other,
}

/// What the session asks for in answer to an event.
#[derive(Debug, Clone, Copy, PartialEq, Eq, Structural)]
pub enum Action {
    /// Nothing: wait for the next event.
    Wait,
    /// Draw the hints again, then wait for the next event.
    Redraw,
    /// A window has been chosen: report its value and end.
    Select(i64),
    /// End without a choice.
    Quit,
}

/// The state of a session: the windows to choose from, the characters that hints
/// are typed with, the exit sequences, the hint characters typed so far, and the
/// chords of the keys that are held.
pub struct State {
    pub windows: Seq<HintWindow>,
    pub symbols: Seq<char>,
    pub exit_keys: Seq<Seq<Set<Seq<char>>>>,
    pub typed: Seq<char>,
    pub held: Seq<Set<Seq<char>>>,
}

/// The name of the key that always ends the session.
pub open spec fn escape_name() -> Seq<char> {
    "Escape"@
}

/// Whether `typed` is the beginning of one of `labels`, but none of them.
pub open spec fn opens_label(labels: Seq<Seq<char>>, typed: Seq<char>) -> bool {
    &&& !labels.contains(typed)
    &&& exists|i: int| 0 <= i < labels.len() && typed.is_prefix_of(#[trigger] labels[i])
}

/// What has been typed once the key named `key` has gone down: a key named by a
/// single hint character adds that character, any other key adds nothing.
pub open spec fn typed_with(symbols: Seq<char>, typed: Seq<char>, key: Seq<char>) -> Seq<char> {
    if key.len() == 1 && symbols.contains(key[0]) {
        typed.push(key[0])
    } else {
        typed
    }
}

impl State {
    /// What holds of the state of every session: no hint is the beginning of another,
    /// and no two boxes share a point.
    pub open spec fn wf(self) -> bool {
        &&& prefix_free(labels_of(self.windows))
        &&& pairwise_disjoint(rects_of(self.windows))
    }

    /// The state with these chords held.
    pub open spec fn holding(self, held: Seq<Set<Seq<char>>>) -> State {
        State { held, ..self }
    }

    /// The state with these chords held and these characters typed.
    pub open spec fn typing(self, held: Seq<Set<Seq<char>>>, typed: Seq<char>) -> State {
        State { held, typed, ..self }
    }

    /// The state and the answer once the key named `key` has gone down.
    ///
    /// The key joins the keys held. Escape, or an exit sequence made by the keys held,
    /// ends the session. Otherwise a hint character is added to what has been typed.
    /// If that is a hint, its window is chosen. If it begins a hint, the hints are
    /// drawn again. If it does neither, the character is taken back, and the
    /// session ends unless there are exit sequences, which the key may belong to.
    pub open spec fn key_down(self, key: Seq<char>) -> (State, Action) {
        let held = pressed(self.held, key);
        let typed = typed_with(self.symbols, self.typed, key);
        let labels = labels_of(self.windows);
        if key == escape_name() || self.exit_keys.contains(held) {
            (self.holding(held), Action::Quit)
        } else if labels.contains(typed) {
            (self.typing(held, typed), Action::Select(self.windows[labels.index_of(typed)].def.value))
        } else if opens_label(labels, typed) {
            (self.typing(held, typed), Action::Redraw)
        } else if self.exit_keys.len() == 0 {
            (self.holding(held), Action::Quit)
        } else {
            (self.holding(held), Action::Wait)
        }
    }

    /// The state once the key named `key` has come up.
    pub open spec fn key_up(self, key: Seq<char>) -> State {
        self.holding(released(self.held, key))
    }

    /// The state after the keys named by the characters of `word` have gone down and
    /// come up again, one after the other.
    pub open spec fn after_typing(self, word: Seq<char>) -> State
        decreases word.len(),
    {
        if word.len() == 0 {
            self
        } else {
            self.after_typing(word.drop_last()).key_down(seq![word.last()]).0.key_up(
                seq![word.last()],
            )
        }
    }

    /// Whether typing `word` can go on undisturbed: it is made of hint characters, and
    /// none of them alone is an exit sequence.
    pub open spec fn can_type(self, word: Seq<char>) -> bool {
        forall|x: int|
            0 <= x < word.len() ==> self.symbols.contains(#[trigger] word[x])
                && !self.exit_keys.contains(seq![set![seq![word[x]]]])
    }

    /// The state and the answer after `event`.
    pub open spec fn after(self, event: Event) -> (State, Action) {
        match event {
            Event::Closed => (self, Action::Quit),
            Event::Expose => (self, Action::Redraw),
            Event::ButtonPress => (self, Action::Quit),
            Event::KeyPress(key) => self.key_down(key@),
            Event::KeyRelease(key) => (self.key_up(key@), Action::Wait),
            Event::Other => (self, Action::Wait),
        }
    }
}

/// What the characters typed so far are to the hints.
#[derive(Debug, Clone, Copy, PartialEq, Eq, Structural)]
pub enum Matching {
    /// They are the hint of the window with this index.
    Exact(usize),
    /// They are no hint, but at least one hint begins with them.
    Opens,
    /// No hint begins with them.
    Dead,
}

/// `typed` without `key` at its end, and `typed` itself where it does not end with
/// `key`.
pub open spec fn without_last(typed: Seq<char>, key: Seq<char>) -> Seq<char> {
    if key.is_suffix_of(typed) {
        typed.take(typed.len() - key.len())
    } else {
        typed
    }
}

/// Takes `kstr` back from the end of `pressed_keys`, where they end with it.
pub fn remove_last_key(pressed_keys: &mut String, kstr: &str)
    ensures
        final(pressed_keys)@ == without_last(old(pressed_keys)@, kstr@),
{
    let mut typed = chars_of(pressed_keys.as_str());
    let key = chars_of(kstr);
    if ends_with(&typed, &key) {
        typed.truncate(typed.len() - key.len());
        *pressed_keys = string_of(&typed);
    }
}

/// How many characters at the start of `hint` have been typed already: all of
/// `typed` where `hint` begins with it, and none where it does not.
pub open spec fn typed_part(hint: Seq<char>, typed: Seq<char>) -> nat {
    if typed.is_prefix_of(hint) {
        typed.len()
    } else {
        0
    }
}

/// How many characters at the start of `hint` are drawn as typed.
pub fn highlighted_len(hint: &str, pressed_keys: &str) -> (len: usize)
    ensures
        len == typed_part(hint@, pressed_keys@),
{
    let label = chars_of(hint);
    let typed = chars_of(pressed_keys);
    if starts_with(&label, &typed) {
        typed.len()
    } else {
        0
    }
}

impl LabelTable {
    /// The windows of the table, in their order.
    pub fn windows(&self) -> (windows: &Vec<HintWindow>)
        ensures
            windows@ == self@,
    {
        &self.windows
    }

    /// What `typed` is to the hints of the table.
    pub fn classify(&self, typed: &str) -> (matching: Matching)
        requires
            self.wf(),
        ensures
            match matching {
                Matching::Exact(i) => i < self@.len() && labels_of(self@)[i as int] == typed@
                    && labels_of(self@).index_of(typed@) == i,
                Matching::Opens => opens_label(labels_of(self@), typed@),
                Matching::Dead => !labels_of(self@).contains(typed@) && !opens_label(
                    labels_of(self@),
                    typed@,
                ),
            },
    {
        let word = chars_of(typed);
        let ghost labels = labels_of(self@);
        let mut opens = false;
        let mut i: usize = 0;
        while i < self.windows.len()
            invariant
                i <= self.windows.len(),
                self.wf(),
                labels == labels_of(self@),
                word@ == typed@,
                forall|j: int| 0 <= j < i ==> #[trigger] labels[j] != typed@,
                opens <==> exists|j: int| 0 <= j < i && typed@.is_prefix_of(#[trigger] labels[j]),
            decreases self.windows.len() - i,
        {
            let label = chars_of(self.windows[i].hint.as_str());
            assert(label@ == labels[i as int]);
            if starts_with(&label, &word) {
                if label.len() == word.len() {
                    proof {
                        assert(label@.subrange(0, word@.len() as int) == label@);
                        let found = labels.index_of(typed@);
                        assert(labels.contains(typed@));
                        if found != i {
                            assert(labels[found].is_prefix_of(labels[i as int]));
                        }
                    }
                    return Matching::Exact(i);
                }
                opens = true;
            }
            i += 1;
        }
        if opens {
            Matching::Opens
        } else {
            Matching::Dead
        }
    }
}

/// One run of the program: the windows to choose from, the configuration, and what
/// the keys have done so far.
pub struct Session {
    table: LabelTable,
    symbols: Vec<char>,
    exit_keys: Vec<Sequence>,
    pressed_keys: String,
    sequence: Sequence,
}

impl View for Session {
    type V = State;

    closed spec fn view(&self) -> State {
        State {
            windows: self.table@,
            symbols: self.symbols@,
            exit_keys: sequences_view(self.exit_keys@),
            typed: self.pressed_keys@,
            held: self.sequence@,
        }
    }
}

impl Session {
    /// What holds of every session.
    pub open spec fn wf(&self) -> bool {
        self@.wf()
    }

    /// A session in which no key has gone down yet.
    pub fn new(table: LabelTable, hint_chars: &str, exit_keys: Vec<Sequence>) -> (session: Session)
        requires
            table.wf(),
        ensures
            session.wf(),
            session@ == (State {
                windows: table@,
                symbols: hint_chars@,
                exit_keys: sequences_view(exit_keys@),
                typed: Seq::empty(),
                held: Seq::empty(),
            }),
    {
        Session {
            table,
            symbols: chars_of(hint_chars),
            exit_keys,
            pressed_keys: String::new(),
            sequence: Sequence::new(None),
        }
    }

    /// The windows to choose from.
    pub fn table(&self) -> (table: &LabelTable)
        ensures
            table@ == self@.windows,
    {
        &self.table
    }

    /// The hint characters typed so far.
    pub fn pressed_keys(&self) -> (typed: &str)
        ensures
            typed@ == self@.typed,
    {
        self.pressed_keys.as_str()
    }

    /// The chords of the keys that are held.
    pub fn sequence(&self) -> (held: &Sequence)
        ensures
            held@ == self@.held,
    {
        &self.sequence
    }

    /// Takes note that the key named `key` has gone down, and says what follows.
    fn key_press(&mut self, key: &str) -> (action: Action)
        requires
            old(self).wf(),
        ensures
            final(self).wf(),
            (final(self)@, action) == old(self)@.key_down(key@),
    {
        self.sequence.push(key.to_owned());
        if same_text(key, "Escape") || exit_requested(&self.exit_keys, &self.sequence) {
            return Action::Quit;
        }
        let name = chars_of(key);
        let typing = name.len() == 1 && holds_symbol(&self.symbols, name[0]);
        if typing {
            self.pressed_keys.push(name[0]);
        }
        match self.table.classify(self.pressed_keys.as_str()) {
            Matching::Exact(i) => Action::Select(self.table.windows[i].def.value),
            Matching::Opens => Action::Redraw,
            Matching::Dead => {
                if typing {
                    proof {
                        let before = old(self)@.typed;
                        assert(key@ =~= seq![name@[0]]);
                        assert(before.push(name@[0]).subrange(before.len() as int, before.len() as int + 1)
                            =~= key@);
                        assert(before.push(name@[0]).take(before.len() as int) =~= before);
                    }
                    remove_last_key(&mut self.pressed_keys, key);
                }
                if self.exit_keys.len() == 0 {
                    Action::Quit
                } else {
                    Action::Wait
                }
            },
        }
    }

    /// Takes note of `event`, and says what the program has to do next.
    pub fn handle_event(&mut self, event: &Event) -> (action: Action)
        requires
            old(self).wf(),
        ensures
            final(self).wf(),
            (final(self)@, action) == old(self)@.after(*event),
    {
        match event {
            Event::Closed => Action::Quit,
            Event::Expose => Action::Redraw,
            Event::ButtonPress => Action::Quit,
            Event::KeyPress(key) => self.key_press(key.as_str()),
            Event::KeyRelease(key) => {
                self.sequence.remove(key.as_str());
                Action::Wait
            },
            Event::Other => Action::Wait,
        }
    }
}

/// Escape ends the session without a choice, whatever has been typed and whatever
/// keys are held.
pub proof fn lemma_escape_quits(state: State)
    ensures
        state.key_down(escape_name()).1 == Action::Quit,
{
}

/// A key that completes an exit sequence ends the session without a choice, even
/// where it is a hint character.
pub proof fn lemma_exit_sequence_quits(state: State, key: Seq<char>)
    requires
        state.exit_keys.contains(pressed(state.held, key)),
    ensures
        state.key_down(key).1 == Action::Quit,
        state.key_down(key).0.typed == state.typed,
{
}

/// Without exit sequences, a key after which no hint begins with what has been typed
/// ends the session without a choice.
pub proof fn lemma_dead_end_quits(state: State, key: Seq<char>)
    requires
        state.exit_keys.len() == 0,
        forall|i: int|
            0 <= i < state.windows.len() ==> !typed_with(state.symbols, state.typed, key).is_prefix_of(
                #[trigger] labels_of(state.windows)[i],
            ),
    ensures
        state.key_down(key).1 == Action::Quit,
{
    let labels = labels_of(state.windows);
    let typed = typed_with(state.symbols, state.typed, key);
    if labels.contains(typed) {
        let i = choose|i: int| 0 <= i < labels.len() && labels[i] == typed;
        assert(typed.subrange(0, typed.len() as int) =~= typed);
        assert(typed.is_prefix_of(labels[i]));
    }
}

/// With exit sequences, a key after which no hint begins with what has been typed
/// leaves what had been typed before it as it was, and the session goes on, unless
/// the key is Escape or completes an exit sequence.
pub proof fn lemma_dead_end_rolls_back(state: State, key: Seq<char>)
    requires
        state.exit_keys.len() > 0,
        key != escape_name(),
        !state.exit_keys.contains(pressed(state.held, key)),
        forall|i: int|
            0 <= i < state.windows.len() ==> !typed_with(state.symbols, state.typed, key).is_prefix_of(
                #[trigger] labels_of(state.windows)[i],
            ),
    ensures
        state.key_down(key).1 == Action::Wait,
        state.key_down(key).0.typed == state.typed,
{
    let labels = labels_of(state.windows);
    let typed = typed_with(state.symbols, state.typed, key);
    if labels.contains(typed) {
        let i = choose|i: int| 0 <= i < labels.len() && labels[i] == typed;
        assert(typed.subrange(0, typed.len() as int) =~= typed);
        assert(typed.is_prefix_of(labels[i]));
    }
}

/// While the hint of window `i` is typed from the start, what has been typed is the
/// part of the hint typed so far, and no key is held between two keys.
proof fn lemma_typing_state(state: State, i: int, j: int)
    requires
        state.wf(),
        state.typed.len() == 0,
        state.held.len() == 0,
        0 <= i < state.windows.len(),
        state.can_type(state.windows[i].hint@),
        0 <= j < state.windows[i].hint@.len(),
    ensures
        state.after_typing(state.windows[i].hint@.take(j)) == state.typing(
            Seq::empty(),
            state.windows[i].hint@.take(j),
        ),
    decreases j,
{
    let label = state.windows[i].hint@;
    let labels = labels_of(state.windows);
    assert(labels[i] == label);
    if j == 0 {
        assert(label.take(0) =~= Seq::<char>::empty());
        assert(state.typed =~= label.take(0));
        assert(state.held =~= Seq::empty());
    } else {
        lemma_typing_state(state, i, j - 1);
        let before = state.after_typing(label.take(j - 1));
        let c = label[j - 1];
        let key = seq![c];
        assert(label.take(j).drop_last() =~= label.take(j - 1));
        assert(label.take(j).last() == c);
        assert(state.after_typing(label.take(j)) == before.key_down(key).0.key_up(key));
        lemma_key_goes_on(state, before, i, j - 1);
        let held = pressed(before.held, key);
        assert(held =~= seq![set![key]]);
        assert(held.last().remove(key) =~= Set::<Seq<char>>::empty());
        assert(released(held, key) =~= Seq::empty());
    }
}

/// A key of the hint of window `i`, typed after the part of the hint before it,
/// chooses the window where it is the last of the hint, and else has the hints drawn
/// again with one more character typed.
proof fn lemma_key_goes_on(state: State, before: State, i: int, j: int)
    requires
        state.wf(),
        0 <= i < state.windows.len(),
        state.can_type(state.windows[i].hint@),
        0 <= j < state.windows[i].hint@.len(),
        before == state.typing(Seq::empty(), state.windows[i].hint@.take(j)),
    ensures
        before.key_down(seq![state.windows[i].hint@[j]]) == (
            before.typing(
                seq![set![seq![state.windows[i].hint@[j]]]],
                state.windows[i].hint@.take(j + 1),
            ),
            if j + 1 == state.windows[i].hint@.len() {
                Action::Select(state.windows[i].def.value)
            } else {
                Action::Redraw
            },
        ),
{
    reveal_strlit("Escape");
    let label = state.windows[i].hint@;
    let labels = labels_of(state.windows);
    assert(labels[i] == label);
    let c = label[j];
    let key = seq![c];
    let held = pressed(before.held, key);
    assert(held =~= seq![set![key]]);
    assert(state.symbols.contains(label[j]) && !state.exit_keys.contains(seq![set![seq![label[j]]]]));
    let typed = typed_with(before.symbols, before.typed, key);
    assert(typed =~= label.take(j + 1));
    assert(label.subrange(0, j + 1) =~= label.take(j + 1));
    assert(typed.is_prefix_of(labels[i]));
    if labels.contains(typed) {
        let k = labels.index_of(typed);
        assert(labels[k] == typed);
        if k != i {
            assert(labels[k].is_prefix_of(labels[i]));
        }
        assert(label.take(label.len() as int) == label);
    }
    if j + 1 == label.len() {
        assert(label.take(j + 1) == label);
    }
}

/// Typing the hint of a window chooses that window: from the start of a session, as
/// long as the keys typed are the hint's characters up to the one before its last,
/// the hints are drawn again after each key, and the hint's last key chooses the
/// window, whatever other hints begin alike. This holds where the hint is made of
/// hint characters and none of them is an exit sequence by itself.
pub proof fn lemma_typing_selects(state: State, i: int, j: int)
    requires
        state.wf(),
        state.typed.len() == 0,
        state.held.len() == 0,
        0 <= i < state.windows.len(),
        state.can_type(state.windows[i].hint@),
        0 <= j < state.windows[i].hint@.len(),
    ensures
        state.after_typing(state.windows[i].hint@.take(j)).typed == state.windows[i].hint@.take(j),
        state.after_typing(state.windows[i].hint@.take(j)).key_down(
            seq![state.windows[i].hint@[j]],
        ).1 == if j + 1 == state.windows[i].hint@.len() {
            Action::Select(state.windows[i].def.value)
        } else {
            Action::Redraw
        },
{
    lemma_typing_state(state, i, j);
    lemma_key_goes_on(state, state.after_typing(state.windows[i].hint@.take(j)), i, j);
}

/// The hints of an assignment can be typed: where the hints of a session are those
/// made from its hint characters and no exit sequence is configured, none of the hints
/// is the beginning of another, and each can be typed undisturbed.
pub proof fn lemma_generated_hints_can_be_typed(state: State, i: int)
    requires
        state.exit_keys.len() == 0,
        enough_symbols(distinct_symbols(state.symbols).len() as int, state.windows.len() as int),
        labels_of(state.windows) == hint_labels(
            distinct_symbols(state.symbols),
            state.windows.len(),
        ),
        0 <= i < state.windows.len(),
    ensures
        prefix_free(labels_of(state.windows)),
        state.can_type(state.windows[i].hint@),
{
    let symbols = distinct_symbols(state.symbols);
    let n = state.windows.len();
    let label = state.windows[i].hint@;
    lemma_distinct_symbols(state.symbols);
    lemma_generated_prefix_free(symbols, n);
    lemma_hint_symbols(symbols, n as int, i);
    assert(labels_of(state.windows)[i] == label);
    assert forall|x: int| 0 <= x < label.len() implies state.symbols.contains(#[trigger] label[x])
        && !state.exit_keys.contains(seq![set![seq![label[x]]]]) by {
        assert(symbols.contains(label[x]));
    }
}

} // verus!
