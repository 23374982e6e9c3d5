use vstd::prelude::*;
use crate::text::same_text;
use crate::text::split;
use crate::text::split_str;
use crate::text::strings_view;

verus! {

/// The keys of one chord: the names in `combo`, in no order and each once.
pub open spec fn chord_keys(combo: Seq<String>) -> Set<Seq<char>> {
    strings_view(combo).to_set()
}

/// The chords that a configuration string names: its parts between spaces, each
/// taken as the set of key names between `+` signs.
pub open spec fn chords_of(s: Seq<char>) -> Seq<Set<Seq<char>>> {
    split(s, ' ').map_values(|chord: Seq<char>| split(chord, '+').to_set())
}

/// The chords after `key` has gone down: it joins the most recent chord, or starts
/// the first one.
pub open spec fn pressed(chords: Seq<Set<Seq<char>>>, key: Seq<char>) -> Seq<Set<Seq<char>>> {
    if chords.len() == 0 {
        seq![set![key]]
    } else {
        chords.drop_last().push(chords.last().insert(key))
    }
}

/// The chords after `key` has come up: it leaves the most recent chord, and that
/// chord goes when it was its last key. Earlier chords stay as they are.
pub open spec fn released(chords: Seq<Set<Seq<char>>>, key: Seq<char>) -> Seq<Set<Seq<char>>> {
    if chords.len() == 0 {
        chords
    } else if chords.last().remove(key) =~= Set::empty() {
        chords.drop_last()
    } else {
        chords.drop_last().push(chords.last().remove(key))
    }
}

/// The chords after the keys of `keys` have gone down one after the other.
pub open spec fn pressed_all(chords: Seq<Set<Seq<char>>>, keys: Seq<Seq<char>>) -> Seq<
    Set<Seq<char>>,
>
    decreases keys.len(),
{
    if keys.len() == 0 {
        chords
    } else {
        pressed(pressed_all(chords, keys.drop_last()), keys.last())
    }
}

/// Keys that go down while no key is held make one chord, in whatever order they go
/// down: the chord of an exit sequence is made by pressing its keys.
pub proof fn lemma_keys_make_chord(keys: Seq<Seq<char>>)
    requires
        keys.len() > 0,
    ensures
        pressed_all(Seq::empty(), keys) == seq![keys.to_set()],
    decreases keys.len(),
{
    let front = keys.drop_last();
    let none = Seq::<Set<Seq<char>>>::empty();
    if front.len() == 0 {
        assert(pressed_all(none, front) == none);
        assert(pressed_all(none, keys) == seq![set![keys.last()]]);
        assert forall|k: Seq<char>| keys.to_set().contains(k) <==> set![keys.last()].contains(
            k,
        ) by {
            if keys.contains(k) {
                let i = choose|i: int| 0 <= i < keys.len() && keys[i] == k;
            }
            assert(keys[0] == keys.last());
        }
        assert(keys.to_set() =~= set![keys.last()]);
    } else {
        lemma_keys_make_chord(front);
        let held = pressed_all(none, front);
        assert(held.drop_last() =~= none);
        assert(pressed(held, keys.last()) =~= seq![front.to_set().insert(keys.last())]);
        assert forall|k: Seq<char>| keys.to_set().contains(k) <==> front.to_set().insert(
            keys.last(),
        ).contains(k) by {
            if keys.contains(k) {
                let i = choose|i: int| 0 <= i < keys.len() && keys[i] == k;
                if i < front.len() {
                    assert(front[i] == k);
                }
            }
            if front.contains(k) {
                let i = choose|i: int| 0 <= i < front.len() && front[i] == k;
                assert(keys[i] == k);
            }
            assert(keys[keys.len() - 1] == keys.last());
        }
        assert(keys.to_set() =~= front.to_set().insert(keys.last()));
    }
}

/// Once a key has come up and a key that is not of the chord has gone down, the keys
/// held are not the chord any more: an exit sequence is not met by mistake.
pub proof fn lemma_other_key_breaks_chord(chord: Set<Seq<char>>, up: Seq<char>, down: Seq<char>)
    requires
        !chord.contains(down),
    ensures
        pressed(released(seq![chord], up), down) != seq![chord],
{
    let after = pressed(released(seq![chord], up), down);
    assert(seq![chord].last() == chord);
    if chord.remove(up) =~= Set::empty() {
        assert(released(seq![chord], up) =~= Seq::empty());
        assert(after[0].contains(down));
    } else {
        assert(released(seq![chord], up) =~= seq![chord.remove(up)]);
        assert(after[0].contains(down));
    }
    assert(seq![chord][0] == chord);
}

/// A sequence of chords, each a set of keys held down together. It is what an exit
/// sequence of the configuration names, and what the keys held at the moment make.
#[derive(Debug, Clone)]
pub struct Sequence {
    combos: Vec<Vec<String>>,
}

impl View for Sequence {
    type V = Seq<Set<Seq<char>>>;

    closed spec fn view(&self) -> Seq<Set<Seq<char>>> {
        Seq::new(self.combos@.len(), |i: int| chord_keys(self.combos@[i]@))
    }
}

/// Whether `key` is one of the names in `combo`.
fn combo_holds(combo: &Vec<String>, key: &str) -> (found: bool)
    ensures
        found == chord_keys(combo@).contains(key@),
{
    let mut i: usize = 0;
    while i < combo.len()
        invariant
            i <= combo.len(),
            forall|j: int| 0 <= j < i ==> (#[trigger] combo@[j])@ != key@,
        decreases combo.len() - i,
    {
        if same_text(combo[i].as_str(), key) {
            assert(strings_view(combo@)[i as int] == key@);
            return true;
        }
        i += 1;
    }
    assert forall|j: int| 0 <= j < strings_view(combo@).len() implies strings_view(combo@)[j]
        != key@ by {
        assert(combo@[j]@ != key@);
    }
    false
}

/// One more name in a chord is one more key in its set.
proof fn lemma_chord_push(combo: Seq<String>, key: String)
    ensures
        chord_keys(combo.push(key)) == chord_keys(combo).insert(key@),
{
    let grown = strings_view(combo.push(key));
    let before = strings_view(combo);
    assert(grown =~= before.push(key@));
    assert forall|k: Seq<char>| grown.to_set().contains(k) <==> before.to_set().insert(
        key@,
    ).contains(k) by {
        if grown.contains(k) {
            let i = choose|i: int| 0 <= i < grown.len() && grown[i] == k;
            if i < before.len() {
                assert(before[i] == k);
            }
        }
        if before.contains(k) {
            let i = choose|i: int| 0 <= i < before.len() && before[i] == k;
            assert(grown[i] == k);
        }
        assert(grown[before.len() as int] == key@);
    }
    assert(grown.to_set() =~= before.to_set().insert(key@));
}

/// A chord without names has no keys, and a chord with a name has one.
proof fn lemma_chord_empty(combo: Seq<String>)
    ensures
        combo.len() == 0 <==> chord_keys(combo) =~= Set::empty(),
{
    if combo.len() > 0 {
        assert(strings_view(combo)[0] == combo[0]@);
        assert(chord_keys(combo).contains(combo[0]@));
    } else {
        assert forall|k: Seq<char>| !chord_keys(combo).contains(k) by {
            if strings_view(combo).contains(k) {
                let i = choose|i: int| 0 <= i < strings_view(combo).len() && strings_view(combo)[i] == k;
            }
        }
    }
}

/// Whether every key of `a` is a key of `b`.
fn keys_within(a: &Vec<String>, b: &Vec<String>) -> (within: bool)
    ensures
        within == chord_keys(a@).subset_of(chord_keys(b@)),
{
    let mut i: usize = 0;
    while i < a.len()
        invariant
            i <= a.len(),
            forall|j: int| 0 <= j < i ==> chord_keys(b@).contains((#[trigger] a@[j])@),
        decreases a.len() - i,
    {
        if !combo_holds(b, a[i].as_str()) {
            assert(strings_view(a@)[i as int] == a@[i as int]@);
            assert(chord_keys(a@).contains(a@[i as int]@));
            return false;
        }
        i += 1;
    }
    assert forall|k: Seq<char>| chord_keys(a@).contains(k) implies chord_keys(b@).contains(k) by {
        let j = choose|j: int| 0 <= j < strings_view(a@).len() && strings_view(a@)[j] == k;
        assert(a@[j]@ == k);
    }
    true
}

/// Whether the two chords are made of the same keys.
fn same_keys(a: &Vec<String>, b: &Vec<String>) -> (same: bool)
    ensures
        same == (chord_keys(a@) == chord_keys(b@)),
{
    let same = keys_within(a, b) && keys_within(b, a);
    proof {
        if same {
            assert(chord_keys(a@) =~= chord_keys(b@));
        }
    }
    same
}

impl Sequence {
    /// The sequence that `string` names: its chords are separated by spaces, and the
    /// keys of a chord by `+`. Without a string it is the sequence without chords,
    /// which stands for no key being held.
    pub fn new(string: Option<&str>) -> (seq: Sequence)
        ensures
            seq@ == match string {
                Some(s) => chords_of(s@),
                None => Seq::empty(),
            },
    {
        let mut combos: Vec<Vec<String>> = Vec::new();
        match string {
            None => {
                let seq = Sequence { combos };
                assert(seq@ =~= Seq::empty());
                seq
            },
            Some(s) => {
                let chords = split_str(s, ' ');
                let mut i: usize = 0;
                while i < chords.len()
                    invariant
                        i <= chords.len(),
                        combos.len() == i,
                        forall|j: int|
                            0 <= j < i ==> strings_view((#[trigger] combos@[j])@) == split(
                                chords@[j]@,
                                '+',
                            ),
                    decreases chords.len() - i,
                {
                    combos.push(split_str(chords[i].as_str(), '+'));
                    i += 1;
                }
                let seq = Sequence { combos };
                proof {
                    assert forall|j: int| 0 <= j < seq@.len() implies seq@[j] == chords_of(s@)[j] by {
                        assert(strings_view(chords@)[j] == chords@[j]@);
                    }
                    assert(seq@ =~= chords_of(s@));
                }
                seq
            },
        }
    }

    /// Takes note that `key` has gone down: it joins the keys of the most recent
    /// chord, or starts the first chord.
    pub fn push(&mut self, key: String)
        ensures
            final(self)@ == pressed(old(self)@, key@),
    {
        let ghost before = self@;
        match self.combos.pop() {
            None => {
                let mut first: Vec<String> = Vec::new();
                proof {
                    lemma_chord_push(first@, key);
                    lemma_chord_empty(first@);
                }
                first.push(key);
                self.combos.push(first);
                assert(self@ =~= pressed(before, key@));
            },
            Some(mut last) => {
                if !combo_holds(&last, key.as_str()) {
                    proof {
                        lemma_chord_push(last@, key);
                    }
                    last.push(key);
                } else {
                    assert(chord_keys(last@).insert(key@) =~= chord_keys(last@));
                }
                self.combos.push(last);
                assert(self@ =~= pressed(before, key@));
            },
        }
    }

    /// Takes note that `key` has come up: it leaves the most recent chord, which goes
    /// when no key of it is left. Earlier chords are not touched.
    pub fn remove(&mut self, key: &str)
        ensures
            final(self)@ == released(old(self)@, key@),
    {
        let ghost before = self@;
        match self.combos.pop() {
            None => {
                assert(self@ =~= released(before, key@));
            },
            Some(last) => {
                let mut kept: Vec<String> = Vec::new();
                let mut i: usize = 0;
                proof {
                    lemma_chord_empty(last@.take(0));
                    lemma_chord_empty(kept@);
                    assert(chord_keys(kept@) =~= chord_keys(last@.take(0)).remove(key@));
                }
                while i < last.len()
                    invariant
                        i <= last.len(),
                        chord_keys(kept@) == chord_keys(last@.take(i as int)).remove(key@),
                    decreases last.len() - i,
                {
                    proof {
                        assert(last@.take(i + 1) == last@.take(i as int).push(last@[i as int]));
                        lemma_chord_push(last@.take(i as int), last@[i as int]);
                    }
                    if !same_text(last[i].as_str(), key) {
                        let name = last[i].clone();
                        proof {
                            lemma_chord_push(kept@, name);
                        }
                        kept.push(name);
                        assert(chord_keys(kept@) =~= chord_keys(last@.take(i + 1)).remove(key@));
                    } else {
                        assert(chord_keys(kept@) =~= chord_keys(last@.take(i + 1)).remove(key@));
                    }
                    i += 1;
                }
                proof {
                    assert(last@.take(i as int) == last@);
                    lemma_chord_empty(kept@);
                }
                if kept.len() > 0 {
                    self.combos.push(kept);
                }
                assert(self@ =~= released(before, key@));
            },
        }
    }

    /// Whether a key is held: whether the sequence has a chord.
    pub fn is_started(&self) -> (started: bool)
        ensures
            started == (self@.len() > 0),
    {
        self.combos.len() > 0
    }

    /// Whether the two sequences have the same chords in the same order, a chord being
    /// the set of its keys.
    pub fn matches(&self, other: &Sequence) -> (same: bool)
        ensures
            same == (self@ == other@),
    {
        if self.combos.len() != other.combos.len() {
            assert(self@.len() != other@.len());
            return false;
        }
        let mut i: usize = 0;
        while i < self.combos.len()
            invariant
                i <= self.combos.len(),
                self.combos.len() == other.combos.len(),
                forall|j: int| 0 <= j < i ==> self@[j] == other@[j],
            decreases self.combos.len() - i,
        {
            if !same_keys(&self.combos[i], &other.combos[i]) {
                assert(self@[i as int] != other@[i as int]);
                return false;
            }
            i += 1;
        }
        assert(self@ =~= other@);
        true
    }
}

impl PartialEq for Sequence {
    /// Two sequences are equal when they have the same chords in the same order.
    fn eq(&self, other: &Sequence) -> (same: bool) {
        self.matches(other)
    }
}

impl vstd::std_specs::cmp::PartialEqSpecImpl for Sequence {
    open spec fn obeys_eq_spec() -> bool {
        true
    }

    open spec fn eq_spec(&self, other: &Sequence) -> bool {
        self@ == other@
    }
}

impl Eq for Sequence {

}

/// The exit sequence that one value of the configuration names.
pub fn parse_exit_keys(s: &str) -> (seq: Sequence)
    ensures
        seq@ == chords_of(s@),
{
    Sequence::new(Some(s))
}

/// What a list of sequences holds: the chords of each.
pub open spec fn sequences_view(sequences: Seq<Sequence>) -> Seq<Seq<Set<Seq<char>>>> {
    Seq::new(sequences.len(), |i: int| sequences[i]@)
}

/// Whether the keys held make one of the exit sequences.
pub fn exit_requested(exit_keys: &Vec<Sequence>, sequence: &Sequence) -> (exit: bool)
    ensures
        exit == sequences_view(exit_keys@).contains(sequence@),
{
    let mut i: usize = 0;
    while i < exit_keys.len()
        invariant
            i <= exit_keys.len(),
            forall|j: int| 0 <= j < i ==> (#[trigger] exit_keys@[j])@ != sequence@,
        decreases exit_keys.len() - i,
    {
        if exit_keys[i].matches(sequence) {
            assert(sequences_view(exit_keys@)[i as int] == sequence@);
            return true;
        }
        i += 1;
    }
    assert forall|j: int| 0 <= j < sequences_view(exit_keys@).len() implies sequences_view(
        exit_keys@,
    )[j] != sequence@ by {
        assert(exit_keys@[j]@ != sequence@);
    }
    false
}

} // verus!
