use vstd::prelude::*;

verus! {

/// Taken on trust of `std::string::String::push`, which vstd does not specify: the
/// call appends the character to the end of the string and leaves what was there as
/// it was.
pub assume_specification[ String::push ](s: &mut String, c: char)
    ensures
        final(s)@ == old(s)@.push(c),
;

/// What a list of strings holds: the characters of each, in order.
pub open spec fn strings_view(v: Seq<String>) -> Seq<Seq<char>> {
    Seq::new(v.len(), |i: int| v[i]@)
}

/// The characters of `s`, in order.
pub fn chars_of(s: &str) -> (out: Vec<char>)
    ensures
        out@ == s@,
{
    let mut out: Vec<char> = Vec::new();
    for c in it: s.chars()
        invariant
            it.seq() == s@,
            out@ == s@.take(it.index() as int),
    {
        out.push(c);
    }
    assert(s@.take(s@.len() as int) == s@);
    out
}

/// The string made of the characters of `chars`, in order.
pub fn string_of(chars: &Vec<char>) -> (out: String)
    ensures
        out@ == chars@,
{
    let mut out = String::new();
    let mut i: usize = 0;
    while i < chars.len()
        invariant
            i <= chars.len(),
            out@ == chars@.take(i as int),
        decreases chars.len() - i,
    {
        out.push(chars[i]);
        i += 1;
    }
    assert(chars@.take(i as int) == chars@);
    out
}

/// The parts of `s` between the occurrences of `sep`, in order. A string without
/// `sep` is one part, and `n` occurrences make `n + 1` parts, some of which may be
/// empty.
pub open spec fn split(s: Seq<char>, sep: char) -> Seq<Seq<char>>
    decreases s.len(),
{
    if s.len() == 0 {
        seq![Seq::empty()]
    } else {
        let front = split(s.drop_last(), sep);
        if s.last() == sep {
            front.push(Seq::empty())
        } else {
            front.drop_last().push(front.last().push(s.last()))
        }
    }
}

/// The parts put together again, with `sep` between each two.
pub open spec fn join(parts: Seq<Seq<char>>, sep: char) -> Seq<char>
    decreases parts.len(),
{
    if parts.len() == 0 {
        Seq::empty()
    } else if parts.len() == 1 {
        parts[0]
    } else {
        join(parts.drop_last(), sep).push(sep) + parts.last()
    }
}

/// The parts of a string hold no separator, and joined again they give the string.
pub proof fn lemma_split(s: Seq<char>, sep: char)
    ensures
        split(s, sep).len() >= 1,
        forall|i: int| 0 <= i < split(s, sep).len() ==> !(#[trigger] split(s, sep)[i]).contains(sep),
        join(split(s, sep), sep) == s,
    decreases s.len(),
{
    if s.len() == 0 {
        assert(join(split(s, sep), sep) =~= s);
    } else {
        let front = split(s.drop_last(), sep);
        lemma_split(s.drop_last(), sep);
        let parts = split(s, sep);
        if s.last() == sep {
            assert(parts.drop_last() == front);
            assert(join(parts, sep) =~= s);
        } else {
            let grown = front.last().push(s.last());
            assert forall|i: int| 0 <= i < parts.len() implies !(#[trigger] parts[i]).contains(
                sep,
            ) by {
                if i < parts.len() - 1 {
                    assert(parts[i] == front[i]);
                } else {
                    assert(forall|x: int| 0 <= x < front.last().len() ==> grown[x] == front.last()[x]);
                    if grown.contains(sep) {
                        let x = choose|x: int| 0 <= x < grown.len() && grown[x] == sep;
                        if x < front.last().len() {
                            assert(front.last()[x] == sep);
                            assert(front.last().contains(sep));
                            assert(front[front.len() - 1].contains(sep));
                        }
                    }
                }
            }
            assert(parts.drop_last() =~= front.drop_last());
            if front.len() == 1 {
                assert(join(parts, sep) =~= s);
            } else {
                assert(join(front, sep) == join(front.drop_last(), sep).push(sep) + front.last());
                assert(join(parts, sep) == join(front.drop_last(), sep).push(sep) + grown);
                assert(join(parts, sep) =~= join(front, sep).push(s.last()));
                assert(join(parts, sep) =~= s);
            }
        }
    }
}

/// A string is a single part exactly when it holds no separator.
pub proof fn lemma_split_single(s: Seq<char>, sep: char)
    ensures
        split(s, sep).len() >= 1,
        split(s, sep).len() == 1 <==> !s.contains(sep),
    decreases s.len(),
{
    if s.len() > 0 {
        let front = s.drop_last();
        lemma_split_single(front, sep);
        if s.last() == sep {
            assert(s[s.len() - 1] == sep);
        } else {
            if s.contains(sep) {
                let i = choose|i: int| 0 <= i < s.len() && s[i] == sep;
                assert(front[i] == sep);
            }
            if front.contains(sep) {
                let i = choose|i: int| 0 <= i < front.len() && front[i] == sep;
                assert(s[i] == sep);
            }
        }
    }
}

/// The parts of `s` between the occurrences of `sep`.
pub fn split_str(s: &str, sep: char) -> (parts: Vec<String>)
    ensures
        strings_view(parts@) == split(s@, sep),
{
    let chars = chars_of(s);
    let mut parts: Vec<String> = Vec::new();
    let mut current: Vec<char> = Vec::new();
    let mut i: usize = 0;
    assert(chars@.take(0) =~= Seq::<char>::empty());
    assert(strings_view(parts@).push(current@) =~= split(chars@.take(0), sep));
    while i < chars.len()
        invariant
            i <= chars.len(),
            strings_view(parts@).push(current@) == split(chars@.take(i as int), sep),
        decreases chars.len() - i,
    {
        let c = chars[i];
        proof {
            assert(chars@.take(i + 1).drop_last() == chars@.take(i as int));
            assert(chars@.take(i + 1).last() == c);
            assert(strings_view(parts@).push(current@).drop_last() =~= strings_view(parts@));
        }
        if c == sep {
            parts.push(string_of(&current));
            current = Vec::new();
            assert(strings_view(parts@).push(current@) =~= split(chars@.take(i + 1), sep));
        } else {
            current.push(c);
            assert(strings_view(parts@).push(current@) =~= split(chars@.take(i + 1), sep));
        }
        i += 1;
    }
    assert(chars@.take(i as int) == chars@);
    let ghost before = strings_view(parts@);
    parts.push(string_of(&current));
    assert(strings_view(parts@) =~= before.push(current@));
    parts
}

/// Whether `a` begins with `b`.
pub fn starts_with(a: &Vec<char>, b: &Vec<char>) -> (yes: bool)
    ensures
        yes == b@.is_prefix_of(a@),
{
    if b.len() > a.len() {
        return false;
    }
    let mut i: usize = 0;
    while i < b.len()
        invariant
            i <= b.len(),
            b.len() <= a.len(),
            forall|j: int| 0 <= j < i ==> a@[j] == b@[j],
        decreases b.len() - i,
    {
        if a[i] != b[i] {
            assert(a@.subrange(0, b@.len() as int)[i as int] != b@[i as int]);
            return false;
        }
        i += 1;
    }
    assert(b@ =~= a@.subrange(0, b@.len() as int));
    true
}

/// Whether `a` ends with `b`.
pub fn ends_with(a: &Vec<char>, b: &Vec<char>) -> (yes: bool)
    ensures
        yes == b@.is_suffix_of(a@),
{
    if b.len() > a.len() {
        return false;
    }
    let skip: usize = a.len() - b.len();
    let mut i: usize = 0;
    while i < b.len()
        invariant
            i <= b.len(),
            b.len() <= a.len(),
            skip == a.len() - b.len(),
            forall|j: int| 0 <= j < i ==> a@[skip + j] == b@[j],
        decreases b.len() - i,
    {
        if a[skip + i] != b[i] {
            assert(a@.subrange(skip as int, a@.len() as int)[i as int] != b@[i as int]);
            return false;
        }
        i += 1;
    }
    assert(b@ =~= a@.subrange(skip as int, a@.len() as int));
    true
}

/// Whether `c` is one of `symbols`.
pub fn holds_symbol(symbols: &Vec<char>, c: char) -> (found: bool)
    ensures
        found == symbols@.contains(c),
{
    let mut i: usize = 0;
    while i < symbols.len()
        invariant
            i <= symbols.len(),
            forall|j: int| 0 <= j < i ==> symbols@[j] != c,
        decreases symbols.len() - i,
    {
        if symbols[i] == c {
            return true;
        }
        i += 1;
    }
    false
}

/// Whether the two strings hold the same characters.
pub fn same_text(a: &str, b: &str) -> (same: bool)
    ensures
        same == (a@ == b@),
{
    let x = chars_of(a);
    let y = chars_of(b);
    if x.len() != y.len() {
        return false;
    }
    let begins = starts_with(&x, &y);
    proof {
        if begins {
            assert(x@.subrange(0, y@.len() as int) == x@);
        }
    }
    begins
}

} // verus!
