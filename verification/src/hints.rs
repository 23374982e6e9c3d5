use vstd::prelude::*;
use vstd::arithmetic::power::pow;
use vstd::arithmetic::power::lemma_pow0;
use vstd::arithmetic::power::lemma_pow1;
use vstd::arithmetic::power::lemma_pow_adds;
use vstd::arithmetic::div_mod::lemma_fundamental_div_mod;
use vstd::arithmetic::div_mod::lemma_fundamental_div_mod_converse;
use crate::text::chars_of;
use crate::text::holds_symbol;
use crate::text::starts_with;
use crate::text::string_of;
use crate::text::strings_view;

verus! {

/// Why no hint could be produced.
#[derive(Debug, Clone, Copy, PartialEq, Eq, Structural)]
pub enum HintError {
    /// Hints were asked for, but the configured hint characters are empty.
    EmptyAlphabet,
    /// More than one hint was asked for, but there is only one distinct hint character.
    TooFewSymbols,
    /// Every hint of the assignment is in use, or cannot be told from one that is.
    Exhausted,
}

/// The symbols of `s` in the order of their first occurrence, each kept once.
pub open spec fn distinct_symbols(s: Seq<char>) -> Seq<char>
    decreases s.len(),
{
    if s.len() == 0 {
        Seq::empty()
    } else {
        let head = distinct_symbols(s.drop_last());
        if head.contains(s.last()) {
            head
        } else {
            head.push(s.last())
        }
    }
}

/// `distinct_symbols` repeats no symbol and holds exactly the symbols of `s`.
pub proof fn lemma_distinct_symbols(s: Seq<char>)
    ensures
        distinct_symbols(s).no_duplicates(),
        distinct_symbols(s).len() <= s.len(),
        forall|c: char|
            #![trigger distinct_symbols(s).contains(c)]
            #![trigger s.contains(c)]
            distinct_symbols(s).contains(c) <==> s.contains(c),
    decreases s.len(),
{
    if s.len() > 0 {
        let front = s.drop_last();
        lemma_distinct_symbols(front);
        let head = distinct_symbols(front);
        assert forall|c: char|
            #![trigger distinct_symbols(s).contains(c)]
            #![trigger s.contains(c)]
            distinct_symbols(s).contains(c) <==> s.contains(c) by {
            if s.contains(c) {
                let i = choose|i: int| 0 <= i < s.len() && s[i] == c;
                if i < s.len() - 1 {
                    assert(front[i] == c);
                    assert(front.contains(c));
                    let j = choose|j: int| 0 <= j < head.len() && head[j] == c;
                    assert(distinct_symbols(s)[j] == c);
                } else if !head.contains(c) {
                    assert(distinct_symbols(s)[head.len() as int] == c);
                }
            }
            if distinct_symbols(s).contains(c) {
                let j = choose|j: int| 0 <= j < distinct_symbols(s).len() && distinct_symbols(s)[j] == c;
                if j < head.len() {
                    assert(head[j] == c);
                    assert(head.contains(c));
                    let i = choose|i: int| 0 <= i < front.len() && front[i] == c;
                    assert(s[i] == c);
                } else {
                    assert(s[s.len() - 1] == c);
                }
            }
        }
    }
}

/// The symbols that hints are written with: the distinct characters of `hint_chars`.
pub fn alphabet_of(hint_chars: &str) -> (symbols: Vec<char>)
    ensures
        symbols@ == distinct_symbols(hint_chars@),
        symbols@.no_duplicates(),
{
    let all = chars_of(hint_chars);
    let mut symbols: Vec<char> = Vec::new();
    let mut i: usize = 0;
    while i < all.len()
        invariant
            i <= all.len(),
            symbols@ == distinct_symbols(all@.take(i as int)),
        decreases all.len() - i,
    {
        assert(all@.take(i + 1).drop_last() == all@.take(i as int));
        if !holds_symbol(&symbols, all[i]) {
            symbols.push(all[i]);
        }
        i += 1;
    }
    assert(all@.take(i as int) == all@);
    proof {
        lemma_distinct_symbols(hint_chars@);
    }
    symbols
}

/// The number of symbols of the shorter hints, counted upwards from a level of `p`
/// words: the number of times `p` can be multiplied by `k` before `p * k` reaches `n`.
pub open spec fn levels_from(k: int, n: int, p: int) -> nat
    decreases n - p,
    via levels_from_decreases
{
    if k < 2 || p < 1 || p * k >= n {
        0
    } else {
        1 + levels_from(k, n, p * k)
    }
}

#[via_fn]
proof fn levels_from_decreases(k: int, n: int, p: int) {
    if !(k < 2 || p < 1 || p * k >= n) {
        assert(p * k > p) by (nonlinear_arith)
            requires
                k >= 2,
                p >= 1,
        ;
    }
}

/// The length `d` of the shorter hints among `n` hints over `k` symbols: the least `d`
/// with `k^(d+1) >= n`. The longer hints have `d + 1` symbols.
pub open spec fn short_len(k: int, n: int) -> nat {
    levels_from(k, n, 1)
}

/// The number of words of length `short_len(k, n)`: `k^d`.
pub open spec fn level_width(k: int, n: int) -> int {
    pow(k, short_len(k, n))
}

/// How many words of length `short_len(k, n)` are given up as hints so that longer
/// hints can start with them. Each of them makes room for up to `k` longer hints.
pub open spec fn parents(k: int, n: int) -> int {
    let p = level_width(k, n);
    if k < 2 || n <= p {
        1
    } else {
        (n - p - 1) / (k - 1) + 1
    }
}

/// How many of the `n` hints have only `short_len(k, n)` symbols.
pub open spec fn short_count(k: int, n: int) -> int {
    level_width(k, n) - parents(k, n)
}

/// The numeral of `v` with `len` digits, most significant first, written with
/// `symbols` as the digits.
pub open spec fn word(symbols: Seq<char>, len: nat, v: int) -> Seq<char>
    decreases len,
{
    if len == 0 {
        Seq::empty()
    } else {
        word(symbols, (len - 1) as nat, v / (symbols.len() as int)).push(
            symbols[v % (symbols.len() as int)],
        )
    }
}

/// The hint with index `i` among `n` hints written with `symbols`. The first
/// `short_count` hints are the numerals `0, 1, ..` of `short_len` digits. The others
/// are the numerals of one more digit that follow the last of them.
pub open spec fn hint_label(symbols: Seq<char>, n: int, i: int) -> Seq<char> {
    let k = symbols.len() as int;
    let d = short_len(k, n);
    let short = short_count(k, n);
    if i < short {
        word(symbols, d, i)
    } else {
        word(symbols, d + 1, short * k + (i - short))
    }
}

/// The `n` hints written with `symbols`, in the order in which they are handed out.
pub open spec fn hint_labels(symbols: Seq<char>, n: nat) -> Seq<Seq<char>> {
    Seq::new(n, |i: int| hint_label(symbols, n as int, i))
}

/// Whether none of `labels` is the beginning of another. No two are equal then.
pub open spec fn prefix_free(labels: Seq<Seq<char>>) -> bool {
    forall|i: int, j: int|
        0 <= i < labels.len() && 0 <= j < labels.len() && i != j ==> !(#[trigger] labels[i]).is_prefix_of(
            #[trigger] labels[j],
        )
}

/// Whether `n` hints can be written with `k` distinct symbols.
pub open spec fn enough_symbols(k: int, n: int) -> bool {
    n == 0 || k >= 2 || (k == 1 && n == 1)
}

/// What `levels_from` counts, told by powers of `k`.
proof fn lemma_levels(k: int, n: int, p: int, e: nat)
    requires
        k >= 2,
        n >= 1,
        p == pow(k, e),
        p >= 1,
        e == 0 || p < n,
    ensures
        pow(k, e + levels_from(k, n, p)) * k >= n,
        e + levels_from(k, n, p) == 0 || pow(k, e + levels_from(k, n, p)) < n,
        pow(k, e + levels_from(k, n, p)) >= 1,
    decreases n - p,
{
    if p * k >= n {
    } else {
        assert(p * k > p) by (nonlinear_arith)
            requires
                k >= 2,
                p >= 1,
        ;
        lemma_pow_adds(k, e, 1);
        lemma_pow1(k);
        lemma_levels(k, n, p * k, e + 1);
    }
}

/// The shape of an assignment of `n` hints over `k` symbols.
struct Shape {
    depth: usize,
    width: usize,
    short: usize,
}

impl Shape {
    spec fn describes(&self, k: int, n: int) -> bool {
        &&& self.depth == short_len(k, n)
        &&& self.width == level_width(k, n)
        &&& self.short == short_count(k, n)
        &&& self.depth < self.width
        &&& self.short < self.width
        &&& self.short <= n
        &&& n - self.short <= (self.width - self.short) * k
    }
}

fn shape_of(k: usize, n: usize) -> (shape: Shape)
    requires
        n >= 1,
        k >= 2 || (k == 1 && n == 1),
    ensures
        shape.describes(k as int, n as int),
{
    let mut p: usize = 1;
    let mut d: usize = 0;
    proof {
        lemma_pow0(k as int);
    }
    while k >= 2 && p <= (n - 1) / k
        invariant
            n >= 1,
            k >= 1,
            p >= 1,
            p <= n,
            d < p,
            p == pow(k as int, d as nat),
            short_len(k as int, n as int) == d + levels_from(k as int, n as int, p as int),
        decreases n - p,
    {
        proof {
            assert(p * k <= n - 1 && p * k >= 2 * p) by (nonlinear_arith)
                requires
                    k >= 2,
                    p >= 1,
                    p <= (n - 1) / (k as int),
            ;
            lemma_pow_adds(k as int, d as nat, 1);
            lemma_pow1(k as int);
        }
        p = p * k;
        d = d + 1;
    }
    proof {
        if k >= 2 {
            assert(p * k >= n) by (nonlinear_arith)
                requires
                    k >= 2,
                    p > (n - 1) / (k as int),
                    n >= 1,
            ;
        }
        assert(levels_from(k as int, n as int, p as int) == 0);
    }
    let m: usize = if k < 2 || n <= p {
        1
    } else {
        (n - p - 1) / (k - 1) + 1
    };
    proof {
        if !(k < 2 || n <= p) {
            assert(m <= p && n - p + m <= m * k) by (nonlinear_arith)
                requires
                    k >= 2,
                    p >= 1,
                    n > p,
                    p * k >= n,
                    m == (n - p - 1) / (k - 1) + 1,
            ;
        } else {
            assert(m * k == k) by (nonlinear_arith)
                requires
                    m == 1,
            ;
        }
        assert((p - (p - m)) * k == m * k);
    }
    Shape { depth: d, width: p, short: p - m }
}

/// The numeral of `v` with `len` digits.
fn word_of(symbols: &Vec<char>, len: usize, v: usize) -> (w: Vec<char>)
    requires
        symbols.len() >= 1,
    ensures
        w@ == word(symbols@, len as nat, v as int),
    decreases len,
{
    if len == 0 {
        Vec::new()
    } else {
        let k = symbols.len();
        let mut w = word_of(symbols, len - 1, v / k);
        w.push(symbols[v % k]);
        w
    }
}

/// The hint with index `i` of an assignment of `n` hints.
fn label_of(symbols: &Vec<char>, shape: &Shape, n: usize, i: usize) -> (w: Vec<char>)
    requires
        symbols.len() >= 1,
        shape.describes(symbols.len() as int, n as int),
        i < n,
    ensures
        w@ == hint_label(symbols@, n as int, i as int),
{
    let k = symbols.len();
    if i < shape.short {
        word_of(symbols, shape.depth, i)
    } else {
        let t: usize = i - shape.short;
        proof {
            let v = shape.short * k + t;
            lemma_fundamental_div_mod(t as int, k as int);
            assert((shape.short + t / k) * k + t % k == v) by (nonlinear_arith)
                requires
                    t == k * (t / k) + t % k,
                    v == shape.short * k + t,
            ;
            lemma_fundamental_div_mod_converse(
                v,
                k as int,
                (shape.short + t / k) as int,
                (t % k) as int,
            );
            assert(t / k <= t) by (nonlinear_arith)
                requires
                    k >= 1,
                    t >= 0,
            ;
        }
        let mut w = word_of(symbols, shape.depth, shape.short + t / k);
        w.push(symbols[t % k]);
        w
    }
}

/// One hint for each of `count` windows, written with the distinct characters of
/// `hint_chars`. No hint is the beginning of another, and they are as short as that
/// allows.
pub fn generate_hints(hint_chars: &str, count: usize) -> (result: Result<Vec<String>, HintError>)
    ensures
        match result {
            Ok(hints) => {
                &&& enough_symbols(distinct_symbols(hint_chars@).len() as int, count as int)
                &&& strings_view(hints@) == hint_labels(
                    distinct_symbols(hint_chars@),
                    count as nat,
                )
                &&& hints.len() == count
                &&& prefix_free(strings_view(hints@))
            },
            Err(HintError::EmptyAlphabet) => count > 0 && distinct_symbols(hint_chars@).len() == 0,
            Err(HintError::TooFewSymbols) => count > 1 && distinct_symbols(hint_chars@).len() == 1,
            Err(HintError::Exhausted) => false,
        },
{
    let symbols = alphabet_of(hint_chars);
    let mut hints: Vec<String> = Vec::new();
    if count == 0 {
        assert(strings_view(hints@) =~= hint_labels(symbols@, 0));
        return Ok(hints);
    }
    proof {
        if symbols.len() >= 1 && !(symbols.len() == 1 && count > 1) {
            lemma_generated_prefix_free(symbols@, count as nat);
        }
    }
    if symbols.len() == 0 {
        return Err(HintError::EmptyAlphabet);
    }
    if symbols.len() == 1 && count > 1 {
        return Err(HintError::TooFewSymbols);
    }
    let shape = shape_of(symbols.len(), count);
    let mut i: usize = 0;
    while i < count
        invariant
            i <= count,
            symbols.len() >= 1,
            symbols@ == distinct_symbols(hint_chars@),
            enough_symbols(symbols.len() as int, count as int),
            prefix_free(hint_labels(symbols@, count as nat)),
            shape.describes(symbols.len() as int, count as int),
            hints.len() == i,
            forall|j: int| 0 <= j < i ==> (#[trigger] hints@[j])@ == hint_label(symbols@, count as int, j),
        decreases count - i,
    {
        let w = label_of(&symbols, &shape, count, i);
        hints.push(string_of(&w));
        i += 1;
    }
    assert(strings_view(hints@) =~= hint_labels(symbols@, count as nat));
    Ok(hints)
}

/// Whether `label` cannot be told from one of `used`: it begins with one of them, or
/// one of them begins with it.
pub open spec fn collides(used: Seq<Seq<char>>, label: Seq<char>) -> bool {
    exists|i: int|
        0 <= i < used.len() && ((#[trigger] used[i]).is_prefix_of(label) || label.is_prefix_of(
            used[i],
        ))
}

/// Whether `hint` cannot be told from one of `hints`.
pub fn hint_collides(hints: &Vec<String>, hint: &str) -> (found: bool)
    ensures
        found == collides(strings_view(hints@), hint@),
{
    let word = chars_of(hint);
    let ghost used = strings_view(hints@);
    let mut i: usize = 0;
    while i < hints.len()
        invariant
            i <= hints.len(),
            word@ == hint@,
            used == strings_view(hints@),
            forall|j: int|
                0 <= j < i ==> !(#[trigger] used[j]).is_prefix_of(hint@) && !hint@.is_prefix_of(
                    used[j],
                ),
        decreases hints.len() - i,
    {
        let other = chars_of(hints[i].as_str());
        assert(other@ == used[i as int]);
        if starts_with(&word, &other) || starts_with(&other, &word) {
            return true;
        }
        i += 1;
    }
    false
}

/// Whether `j` is the index of the first of `labels` that can be told from all of
/// `used`.
pub open spec fn first_free(labels: Seq<Seq<char>>, used: Seq<Seq<char>>, j: int) -> bool {
    &&& 0 <= j < labels.len()
    &&& !collides(used, labels[j])
    &&& forall|x: int| 0 <= x < j ==> collides(used, #[trigger] labels[x])
}

/// The next hint for one of `max_count` windows: the first hint of the assignment for
/// `max_count` windows over the distinct characters of `hint_chars` that can be told
/// from every hint of `current_hints`.
pub fn get_next_hint(current_hints: &Vec<String>, hint_chars: &str, max_count: usize) -> (result:
    Result<String, HintError>)
    ensures
        match result {
            Ok(hint) => {
                &&& enough_symbols(distinct_symbols(hint_chars@).len() as int, max_count as int)
                &&& exists|j: int|
                    #![trigger first_free(
                        hint_labels(distinct_symbols(hint_chars@), max_count as nat),
                        strings_view(current_hints@),
                        j,
                    )]
                    first_free(
                        hint_labels(distinct_symbols(hint_chars@), max_count as nat),
                        strings_view(current_hints@),
                        j,
                    ) && hint@ == hint_label(distinct_symbols(hint_chars@), max_count as int, j)
                &&& prefix_free(strings_view(current_hints@)) ==> prefix_free(
                    strings_view(current_hints@).push(hint@),
                )
            },
            Err(HintError::EmptyAlphabet) => max_count > 0 && distinct_symbols(hint_chars@).len()
                == 0,
            Err(HintError::TooFewSymbols) => max_count > 1 && distinct_symbols(hint_chars@).len()
                == 1,
            Err(HintError::Exhausted) => {
                &&& enough_symbols(distinct_symbols(hint_chars@).len() as int, max_count as int)
                &&& forall|j: int|
                    0 <= j < max_count ==> collides(
                        strings_view(current_hints@),
                        #[trigger] hint_label(distinct_symbols(hint_chars@), max_count as int, j),
                    )
            },
        },
{
    let symbols = alphabet_of(hint_chars);
    if max_count == 0 {
        return Err(HintError::Exhausted);
    }
    if symbols.len() == 0 {
        return Err(HintError::EmptyAlphabet);
    }
    if symbols.len() == 1 && max_count > 1 {
        return Err(HintError::TooFewSymbols);
    }
    let shape = shape_of(symbols.len(), max_count);
    let ghost labels = hint_labels(symbols@, max_count as nat);
    let ghost used = strings_view(current_hints@);
    let mut i: usize = 0;
    while i < max_count
        invariant
            i <= max_count,
            symbols.len() >= 1,
            symbols@ == distinct_symbols(hint_chars@),
            enough_symbols(symbols.len() as int, max_count as int),
            shape.describes(symbols.len() as int, max_count as int),
            labels == hint_labels(symbols@, max_count as nat),
            used == strings_view(current_hints@),
            forall|j: int|
                0 <= j < i ==> collides(used, #[trigger] hint_label(symbols@, max_count as int, j)),
        decreases max_count - i,
    {
        let w = label_of(&symbols, &shape, max_count, i);
        let hint = string_of(&w);
        if !hint_collides(current_hints, hint.as_str()) {
            proof {
                assert(labels[i as int] == hint@);
                assert forall|x: int| 0 <= x < i implies collides(used, #[trigger] labels[x]) by {
                    assert(labels[x] == hint_label(symbols@, max_count as int, x));
                }
                assert(first_free(labels, used, i as int));
                assert(hint@ == hint_label(symbols@, max_count as int, i as int));
                if prefix_free(used) {
                    lemma_free_hint_fits(used, hint@);
                }
            }
            return Ok(hint);
        }
        i += 1;
    }
    Err(HintError::Exhausted)
}

/// A hint that can be told from all of `used` can join them: where none of `used` is
/// the beginning of another, that still holds with the hint among them.
pub proof fn lemma_free_hint_fits(used: Seq<Seq<char>>, label: Seq<char>)
    requires
        prefix_free(used),
        !collides(used, label),
    ensures
        prefix_free(used.push(label)),
{
    let all = used.push(label);
    assert forall|i: int, j: int|
        0 <= i < all.len() && 0 <= j < all.len() && i != j implies !(#[trigger] all[i]).is_prefix_of(
        #[trigger] all[j],
    ) by {
        if i < used.len() && j < used.len() {
            assert(all[i] == used[i] && all[j] == used[j]);
        } else if i < used.len() {
            assert(all[i] == used[i]);
            assert(!used[i].is_prefix_of(label));
        } else {
            assert(all[j] == used[j]);
            assert(!label.is_prefix_of(used[j]));
        }
    }
}

/// Hints that are asked for one by one come in the order of the assignment: with the
/// first `i` hints in use, the next one is the hint of index `i`.
pub proof fn lemma_next_hint_in_turn(symbols: Seq<char>, n: nat, i: int)
    requires
        symbols.no_duplicates(),
        enough_symbols(symbols.len() as int, n as int),
        0 <= i < n,
    ensures
        first_free(hint_labels(symbols, n), hint_labels(symbols, n).take(i), i),
{
    let labels = hint_labels(symbols, n);
    let used = labels.take(i);
    lemma_generated_prefix_free(symbols, n);
    if collides(used, labels[i]) {
        let x = choose|x: int|
            0 <= x < used.len() && ((#[trigger] used[x]).is_prefix_of(labels[i])
                || labels[i].is_prefix_of(used[x]));
        assert(used[x] == labels[x]);
    }
    assert forall|x: int| 0 <= x < i implies collides(used, #[trigger] labels[x]) by {
        assert(used[x] == labels[x]);
        assert(labels[x].subrange(0, labels[x].len() as int) =~= labels[x]);
        assert(used[x].is_prefix_of(labels[x]));
    }
}

/// The numbers that shape an assignment of `n` hints over `k` symbols fit together:
/// the level of the shorter hints has at least one word and fewer than `n` unless the
/// shorter hints are empty words, one more symbol gives room for all `n`, and the
/// words that are given up make room for exactly the longer hints.
pub proof fn lemma_shape(k: int, n: int)
    requires
        n >= 1,
        k >= 2 || (k == 1 && n == 1),
    ensures
        level_width(k, n) >= 1,
        level_width(k, n) * k >= n,
        short_len(k, n) == 0 || level_width(k, n) < n,
        1 <= parents(k, n) <= level_width(k, n),
        0 <= short_count(k, n) < level_width(k, n),
        short_count(k, n) < n,
        n - short_count(k, n) <= parents(k, n) * k,
        n <= k ==> short_len(k, n) == 0 && short_count(k, n) == 0,
{
    let d = short_len(k, n);
    let p = level_width(k, n);
    let m = parents(k, n);
    lemma_pow0(k);
    if k >= 2 {
        lemma_levels(k, n, 1, 0);
    } else {
        assert(p * k >= n) by (nonlinear_arith)
            requires
                p == 1,
                k == 1,
                n == 1,
        ;
    }
    if !(k < 2 || n <= p) {
        assert(m <= p && n - p + m <= m * k) by (nonlinear_arith)
            requires
                k >= 2,
                p >= 1,
                n > p,
                p * k >= n,
                m == (n - p - 1) / (k - 1) + 1,
        ;
    } else {
        assert(m * k == k) by (nonlinear_arith)
            requires
                m == 1,
        ;
    }
    if n <= k {
        assert(1 * k >= n);
        assert(levels_from(k, n, 1) == 0);
        if n > 1 {
            assert((n - 1 - 1) / (k - 1) == 0) by (nonlinear_arith)
                requires
                    2 <= n <= k,
            ;
        }
    }
}

/// A numeral of `len` digits has `len` symbols, all taken from `symbols`.
pub proof fn lemma_word_symbols(symbols: Seq<char>, len: nat, v: int)
    requires
        symbols.len() >= 1,
    ensures
        word(symbols, len, v).len() == len,
        forall|x: int| 0 <= x < len ==> symbols.contains(#[trigger] word(symbols, len, v)[x]),
    decreases len,
{
    if len > 0 {
        let k = symbols.len() as int;
        lemma_word_symbols(symbols, (len - 1) as nat, v / k);
        assert(0 <= v % k < k) by (nonlinear_arith)
            requires
                k >= 1,
        ;
        assert(symbols.contains(symbols[v % k]));
    }
}

/// Two numbers below `k^len` with the same numeral of `len` digits are equal, when
/// no symbol stands for two digits.
pub proof fn lemma_word_injective(symbols: Seq<char>, len: nat, v: int, w: int)
    requires
        symbols.len() >= 1,
        symbols.no_duplicates(),
        0 <= v < pow(symbols.len() as int, len),
        0 <= w < pow(symbols.len() as int, len),
        word(symbols, len, v) == word(symbols, len, w),
    ensures
        v == w,
    decreases len,
{
    let k = symbols.len() as int;
    if len == 0 {
        lemma_pow0(k);
    } else {
        let rest = (len - 1) as nat;
        lemma_pow_adds(k, rest, 1);
        lemma_pow1(k);
        lemma_word_symbols(symbols, rest, v / k);
        lemma_word_symbols(symbols, rest, w / k);
        let a = word(symbols, rest, v / k);
        let b = word(symbols, rest, w / k);
        assert(a.push(symbols[v % k]).last() == b.push(symbols[w % k]).last());
        assert(a.push(symbols[v % k]).drop_last() == a);
        assert(b.push(symbols[w % k]).drop_last() == b);
        assert(0 <= v % k < k && 0 <= w % k < k && 0 <= v / k < pow(k, rest) && 0 <= w / k < pow(
            k,
            rest,
        )) by (nonlinear_arith)
            requires
                k >= 1,
                0 <= v < pow(k, rest) * k,
                0 <= w < pow(k, rest) * k,
        ;
        lemma_word_injective(symbols, rest, v / k, w / k);
        lemma_fundamental_div_mod(v, k);
        lemma_fundamental_div_mod(w, k);
    }
}

/// Every hint has as many symbols as the shorter hints or one more, at least one,
/// and is written with the given symbols only.
pub proof fn lemma_hint_symbols(symbols: Seq<char>, n: int, i: int)
    requires
        n >= 1,
        symbols.len() >= 2 || (symbols.len() == 1 && n == 1),
        0 <= i < n,
    ensures
        hint_label(symbols, n, i).len() >= 1,
        hint_label(symbols, n, i).len() == if i < short_count(symbols.len() as int, n) {
            short_len(symbols.len() as int, n)
        } else {
            short_len(symbols.len() as int, n) + 1
        },
        forall|x: int|
            0 <= x < hint_label(symbols, n, i).len() ==> symbols.contains(
                #[trigger] hint_label(symbols, n, i)[x],
            ),
{
    let k = symbols.len() as int;
    let d = short_len(k, n);
    let short = short_count(k, n);
    lemma_shape(k, n);
    lemma_word_symbols(symbols, d, i);
    lemma_word_symbols(symbols, d + 1, short * k + (i - short));
    if d == 0 {
        lemma_pow0(k);
    }
}

/// Among the hints of one assignment, none is the beginning of another, and so no
/// two are equal.
pub proof fn lemma_hints_prefix_free(symbols: Seq<char>, n: int, i: int, j: int)
    requires
        symbols.no_duplicates(),
        n >= 1,
        symbols.len() >= 2 || (symbols.len() == 1 && n == 1),
        0 <= i < n,
        0 <= j < n,
        i != j,
    ensures
        !hint_label(symbols, n, i).is_prefix_of(hint_label(symbols, n, j)),
        hint_label(symbols, n, i) != hint_label(symbols, n, j),
{
    let k = symbols.len() as int;
    let d = short_len(k, n);
    let p = level_width(k, n);
    let m = parents(k, n);
    let short = short_count(k, n);
    let a = hint_label(symbols, n, i);
    let b = hint_label(symbols, n, j);
    lemma_shape(k, n);
    lemma_hint_symbols(symbols, n, i);
    lemma_hint_symbols(symbols, n, j);
    lemma_pow_adds(k, d, 1);
    lemma_pow1(k);
    let vi = short * k + (i - short);
    let vj = short * k + (j - short);
    assert(short * k + m * k == p * k) by (nonlinear_arith)
        requires
            short == p - m,
    ;
    if a.is_prefix_of(b) {
        assert(b.subrange(0, a.len() as int) =~= a);
        if i < short && j < short {
            assert(b.subrange(0, b.len() as int) == b);
            lemma_word_injective(symbols, d, i, j);
        } else if i >= short && j >= short {
            assert(b.subrange(0, b.len() as int) == b);
            lemma_word_injective(symbols, d + 1, vi, vj);
        } else if i < short {
            let up = word(symbols, d, vj / k);
            lemma_word_symbols(symbols, d, vj / k);
            assert(b == up.push(symbols[vj % k]));
            assert(b.subrange(0, d as int) =~= up);
            assert(short <= vj / k < p) by (nonlinear_arith)
                requires
                    k >= 1,
                    short * k <= vj < p * k,
            ;
            lemma_word_injective(symbols, d, i, vj / k);
        }
    }
}

/// The hints of one assignment are as many as the windows, and none of them is the
/// beginning of another.
pub proof fn lemma_generated_prefix_free(symbols: Seq<char>, n: nat)
    requires
        symbols.no_duplicates(),
        enough_symbols(symbols.len() as int, n as int),
    ensures
        hint_labels(symbols, n).len() == n,
        prefix_free(hint_labels(symbols, n)),
{
    let labels = hint_labels(symbols, n);
    assert forall|i: int, j: int|
        0 <= i < labels.len() && 0 <= j < labels.len() && i != j implies !(#[trigger] labels[i]).is_prefix_of(
        #[trigger] labels[j],
    ) by {
        lemma_hints_prefix_free(symbols, n as int, i, j);
    }
}

/// With no more windows than symbols, every hint is a single symbol.
pub proof fn lemma_hints_single_symbol(symbols: Seq<char>, n: int, i: int)
    requires
        1 <= n <= symbols.len(),
        0 <= i < n,
    ensures
        hint_label(symbols, n, i).len() == 1,
        hint_label(symbols, n, i) == seq![symbols[i]],
{
    let k = symbols.len() as int;
    lemma_shape(k, n);
    assert(i % k == i && 0 * k + (i - 0) == i) by (nonlinear_arith)
        requires
            0 <= i < k,
    ;
    assert(word(symbols, 0, i / k) == Seq::<char>::empty());
    assert(word(symbols, 1, i) == word(symbols, 0, i / k).push(symbols[i % k]));
    assert(hint_label(symbols, n, i) == word(symbols, 1, i));
    assert(hint_label(symbols, n, i) =~= seq![symbols[i]]);
}

} // verus!
