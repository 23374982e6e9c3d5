use vstd::prelude::*;
use vstd::arithmetic::power::lemma_pow0;
use vstd::arithmetic::power::lemma_pow1;
use vstd::arithmetic::power::lemma_pow_adds;
use vstd::arithmetic::power::lemma_pow_positive;
use vstd::arithmetic::power::pow;
use crate::hints::enough_symbols;
use crate::hints::hint_label;
use crate::hints::hint_labels;
use crate::hints::lemma_hint_symbols;
use crate::hints::lemma_shape;
use crate::hints::level_width;
use crate::hints::parents;
use crate::hints::prefix_free;
use crate::hints::short_count;
use crate::hints::short_len;

verus! {

/// The number of symbols of all the words together.
pub open spec fn total_len(words: Seq<Seq<char>>) -> int
    decreases words.len(),
{
    if words.len() == 0 {
        0
    } else {
        total_len(words.drop_last()) + words.last().len()
    }
}

/// Whether every word has a symbol.
pub open spec fn none_empty(words: Seq<Seq<char>>) -> bool {
    forall|i: int| 0 <= i < words.len() ==> (#[trigger] words[i]).len() > 0
}

/// Whether the words are written with `symbols` only.
pub open spec fn written_with(words: Seq<Seq<char>>, symbols: Seq<char>) -> bool {
    forall|i: int, x: int|
        0 <= i < words.len() && 0 <= x < words[i].len() ==> symbols.contains(
            #[trigger] words[i][x],
        )
}

/// Whether no word has more than `depth` symbols.
pub open spec fn within(words: Seq<Seq<char>>, depth: int) -> bool {
    forall|i: int| 0 <= i < words.len() ==> (#[trigger] words[i]).len() <= depth
}

/// The room that the words take at `depth`: a word of `l` symbols stands for the
/// `k^(depth - l)` words of `depth` symbols that begin with it.
pub open spec fn weight(words: Seq<Seq<char>>, k: int, depth: int) -> int
    decreases words.len(),
{
    if words.len() == 0 {
        0
    } else {
        weight(words.drop_last(), k, depth) + pow(k, (depth - words.last().len()) as nat)
    }
}

/// What follows the first symbol in those of the words that begin with `c`.
pub open spec fn tails(words: Seq<Seq<char>>, c: char) -> Seq<Seq<char>>
    decreases words.len(),
{
    if words.len() == 0 {
        Seq::empty()
    } else {
        let front = tails(words.drop_last(), c);
        if words.last().len() > 0 && words.last()[0] == c {
            front.push(words.last().drop_first())
        } else {
            front
        }
    }
}

/// Whether `tail` follows `c` in one of the words.
spec fn follows(words: Seq<Seq<char>>, c: char, tail: Seq<char>) -> bool {
    exists|i: int|
        0 <= i < words.len() && (#[trigger] words[i]).len() > 0 && words[i][0] == c
            && words[i].drop_first() == tail
}

/// Two words that begin with the same symbol are as their tails are: one begins the
/// other where its tail begins the other's tail.
proof fn lemma_tail_prefix(a: Seq<char>, b: Seq<char>)
    requires
        a.len() > 0,
        b.len() > 0,
        a[0] == b[0],
        a.drop_first().is_prefix_of(b.drop_first()),
    ensures
        a.is_prefix_of(b),
{
    let at = a.drop_first();
    let bt = b.drop_first();
    assert(at =~= bt.subrange(0, at.len() as int));
    assert forall|x: int| 0 <= x < a.len() implies a[x] == b.subrange(0, a.len() as int)[x] by {
        if x > 0 {
            assert(a[x] == at[x - 1]);
            assert(at[x - 1] == bt.subrange(0, at.len() as int)[x - 1]);
            assert(bt[x - 1] == b[x]);
        }
    }
    assert(a =~= b.subrange(0, a.len() as int));
}

/// The tails of words of which none begins another: none of them begins another,
/// each follows `c` in one of the words, and they are written with the same symbols
/// and are shorter by one.
proof fn lemma_tails(words: Seq<Seq<char>>, c: char, symbols: Seq<char>, depth: int)
    requires
        prefix_free(words),
        written_with(words, symbols),
        within(words, depth),
    ensures
        prefix_free(tails(words, c)),
        written_with(tails(words, c), symbols),
        within(tails(words, c), depth - 1),
        forall|j: int|
            0 <= j < tails(words, c).len() ==> follows(words, c, #[trigger] tails(words, c)[j]),
    decreases words.len(),
{
    if words.len() > 0 {
        let front = words.drop_last();
        let last = words.last();
        assert forall|i: int, j: int|
            0 <= i < front.len() && 0 <= j < front.len() && i != j implies !(#[trigger] front[i]).is_prefix_of(
            #[trigger] front[j],
        ) by {
            assert(front[i] == words[i] && front[j] == words[j]);
        }
        assert forall|i: int, x: int| 0 <= i < front.len() && 0 <= x < front[i].len() implies symbols.contains(
            #[trigger] front[i][x],
        ) by {
            assert(front[i][x] == words[i][x]);
        }
        assert forall|i: int| 0 <= i < front.len() implies (#[trigger] front[i]).len() <= depth by {
            assert(front[i] == words[i]);
        }
        lemma_tails(front, c, symbols, depth);
        let before = tails(front, c);
        let all = tails(words, c);
        assert forall|j: int| 0 <= j < before.len() implies follows(
            words,
            c,
            #[trigger] before[j],
        ) by {
            assert(follows(front, c, before[j]));
            let i = choose|i: int|
                0 <= i < front.len() && (#[trigger] front[i]).len() > 0 && front[i][0] == c
                    && front[i].drop_first() == before[j];
            assert(words[i] == front[i]);
        }
        if last.len() > 0 && last[0] == c {
            let t = last.drop_first();
            assert(words[words.len() - 1] == last);
            assert forall|j: int| 0 <= j < all.len() implies follows(words, c, #[trigger] all[j]) by {
                if j < before.len() {
                    assert(all[j] == before[j]);
                } else {
                    assert(words[words.len() - 1].drop_first() == all[j]);
                }
            }
            assert forall|i: int, j: int|
                0 <= i < all.len() && 0 <= j < all.len() && i != j implies !(#[trigger] all[i]).is_prefix_of(
                #[trigger] all[j],
            ) by {
                if i < before.len() && j < before.len() {
                    assert(all[i] == before[i] && all[j] == before[j]);
                } else if i < before.len() {
                    assert(follows(front, c, before[i]));
                    let w = choose|w: int|
                        0 <= w < front.len() && (#[trigger] front[w]).len() > 0 && front[w][0] == c
                            && front[w].drop_first() == before[i];
                    assert(words[w] == front[w]);
                    if all[i].is_prefix_of(all[j]) {
                        lemma_tail_prefix(words[w], last);
                    }
                } else {
                    assert(follows(front, c, before[j]));
                    let w = choose|w: int|
                        0 <= w < front.len() && (#[trigger] front[w]).len() > 0 && front[w][0] == c
                            && front[w].drop_first() == before[j];
                    assert(words[w] == front[w]);
                    if all[i].is_prefix_of(all[j]) {
                        lemma_tail_prefix(last, words[w]);
                    }
                }
            }
            assert forall|i: int, x: int| 0 <= i < all.len() && 0 <= x < all[i].len() implies symbols.contains(
                #[trigger] all[i][x],
            ) by {
                if i < before.len() {
                    assert(all[i][x] == before[i][x]);
                } else {
                    assert(all[i][x] == words[words.len() - 1][x + 1]);
                }
            }
            assert forall|i: int| 0 <= i < all.len() implies (#[trigger] all[i]).len() <= depth - 1 by {
                if i < before.len() {
                    assert(all[i] == before[i]);
                }
            }
        }
    }
}

/// The room at `depth - 1` that the tails take of the words that begin with one of
/// the first `upto` symbols.
spec fn class_weight(words: Seq<Seq<char>>, symbols: Seq<char>, depth: int, upto: nat) -> int
    decreases upto,
{
    if upto == 0 {
        0
    } else {
        class_weight(words, symbols, depth, (upto - 1) as nat) + weight(
            tails(words, symbols[upto - 1]),
            symbols.len() as int,
            depth - 1,
        )
    }
}

/// No words take no room.
proof fn lemma_class_none(symbols: Seq<char>, depth: int, upto: nat)
    ensures
        class_weight(Seq::empty(), symbols, depth, upto) == 0,
    decreases upto,
{
    if upto > 0 {
        lemma_class_none(symbols, depth, (upto - 1) as nat);
    }
}

/// One more word, which begins with the symbol of index `b`, takes its room among
/// the words that begin with that symbol, and nowhere else.
proof fn lemma_class_step(
    front: Seq<Seq<char>>,
    w: Seq<char>,
    symbols: Seq<char>,
    depth: int,
    upto: nat,
    b: int,
)
    requires
        symbols.no_duplicates(),
        upto <= symbols.len(),
        0 <= b < symbols.len(),
        w.len() > 0,
        w[0] == symbols[b],
    ensures
        class_weight(front.push(w), symbols, depth, upto) == class_weight(
            front,
            symbols,
            depth,
            upto,
        ) + if b < upto {
            pow(symbols.len() as int, (depth - w.len()) as nat)
        } else {
            0
        },
    decreases upto,
{
    if upto > 0 {
        let a = upto - 1;
        lemma_class_step(front, w, symbols, depth, a as nat, b);
        let words = front.push(w);
        assert(words.drop_last() == front);
        assert(words.last() == w);
        if a == b {
            let t = tails(words, symbols[a]);
            assert(t == tails(front, symbols[a]).push(w.drop_first()));
            assert(t.drop_last() == tails(front, symbols[a]));
            assert(t.last() == w.drop_first());
            assert(depth - 1 - w.drop_first().len() == depth - w.len());
        } else {
            assert(symbols[a] != symbols[b]);
            assert(tails(words, symbols[a]) == tails(front, symbols[a]));
        }
    }
}

/// The room that words take is the room that their tails take one level down, all
/// first symbols together.
proof fn lemma_class_total(words: Seq<Seq<char>>, symbols: Seq<char>, depth: int)
    requires
        symbols.no_duplicates(),
        none_empty(words),
        written_with(words, symbols),
    ensures
        weight(words, symbols.len() as int, depth) == class_weight(
            words,
            symbols,
            depth,
            symbols.len(),
        ),
    decreases words.len(),
{
    if words.len() == 0 {
        assert(words =~= Seq::empty());
        lemma_class_none(symbols, depth, symbols.len());
    } else {
        let front = words.drop_last();
        let w = words.last();
        assert forall|i: int| 0 <= i < front.len() implies (#[trigger] front[i]).len() > 0 by {
            assert(front[i] == words[i]);
        }
        assert forall|i: int, x: int| 0 <= i < front.len() && 0 <= x < front[i].len() implies symbols.contains(
            #[trigger] front[i][x],
        ) by {
            assert(front[i][x] == words[i][x]);
        }
        lemma_class_total(front, symbols, depth);
        assert(words[words.len() - 1].len() > 0);
        assert(symbols.contains(words[words.len() - 1][0]));
        let b = choose|b: int| 0 <= b < symbols.len() && symbols[b] == w[0];
        lemma_class_step(front, w, symbols, depth, symbols.len(), b);
        assert(front.push(w) =~= words);
    }
}

/// Words of which none begins another, and which have at most `depth` symbols each,
/// take no more room at `depth` than there is: `k^depth`.
proof fn lemma_room(words: Seq<Seq<char>>, symbols: Seq<char>, depth: nat)
    requires
        symbols.no_duplicates(),
        symbols.len() >= 1,
        prefix_free(words),
        written_with(words, symbols),
        within(words, depth as int),
    ensures
        weight(words, symbols.len() as int, depth as int) <= pow(symbols.len() as int, depth),
    decreases depth, symbols.len() + 1,
{
    let k = symbols.len() as int;
    lemma_pow_positive(k, depth);
    if words.len() == 0 {
    } else if !none_empty(words) {
        let i = choose|i: int| 0 <= i < words.len() && !((#[trigger] words[i]).len() > 0);
        if words.len() > 1 {
            let j = if i == 0 {
                1int
            } else {
                0int
            };
            assert(words[i] =~= words[j].subrange(0, 0));
            assert(words[i].is_prefix_of(words[j]));
        }
        assert(words.drop_last() =~= Seq::empty());
        assert(weight(words.drop_last(), k, depth as int) == 0);
        assert(words.last() == words[i]);
    } else {
        assert(words[0].len() > 0);
        lemma_class_total(words, symbols, depth as int);
        lemma_class_room(words, symbols, depth, symbols.len());
        lemma_pow_adds(k, 1, (depth - 1) as nat);
        lemma_pow1(k);
    }
}

/// The tails of the words that begin with one of the first `upto` symbols take no
/// more room one level down than `upto` times what there is.
proof fn lemma_class_room(words: Seq<Seq<char>>, symbols: Seq<char>, depth: nat, upto: nat)
    requires
        symbols.no_duplicates(),
        symbols.len() >= 1,
        upto <= symbols.len(),
        depth >= 1,
        prefix_free(words),
        written_with(words, symbols),
        within(words, depth as int),
    ensures
        class_weight(words, symbols, depth as int, upto) <= upto * pow(
            symbols.len() as int,
            (depth - 1) as nat,
        ),
    decreases depth, upto,
{
    if upto > 0 {
        let k = symbols.len() as int;
        let c = symbols[upto - 1];
        lemma_class_room(words, symbols, depth, (upto - 1) as nat);
        lemma_tails(words, c, symbols, depth as int);
        lemma_room(tails(words, c), symbols, (depth - 1) as nat);
        let unit = pow(k, (depth - 1) as nat);
        assert((upto - 1) * unit + unit == upto * unit) by (nonlinear_arith);
    }
}

/// The length of the longest of the words.
spec fn longest(words: Seq<Seq<char>>) -> nat
    decreases words.len(),
{
    if words.len() == 0 {
        0
    } else if words.last().len() > longest(words.drop_last()) {
        words.last().len()
    } else {
        longest(words.drop_last())
    }
}

/// No word is longer than the longest, nor than anything beyond that.
proof fn lemma_longest(words: Seq<Seq<char>>, depth: int)
    requires
        depth >= longest(words),
    ensures
        within(words, depth),
    decreases words.len(),
{
    if words.len() > 0 {
        let front = words.drop_last();
        lemma_longest(front, depth);
        assert forall|i: int| 0 <= i < words.len() implies (#[trigger] words[i]).len() <= depth by {
            if i < front.len() {
                assert(words[i] == front[i]);
            }
        }
    }
}

/// Words with a symbol each have as many symbols together as there are words, or
/// more.
proof fn lemma_total_least(words: Seq<Seq<char>>)
    requires
        none_empty(words),
    ensures
        total_len(words) >= words.len(),
    decreases words.len(),
{
    if words.len() > 0 {
        let front = words.drop_last();
        assert forall|i: int| 0 <= i < front.len() implies (#[trigger] front[i]).len() > 0 by {
            assert(front[i] == words[i]);
        }
        lemma_total_least(front);
        assert(words[words.len() - 1].len() > 0);
    }
}

/// Powers grow at least as fast as a straight line: `k^(j+1) >= k + j * (k - 1)`.
proof fn lemma_power_line(k: int, j: nat)
    requires
        k >= 2,
    ensures
        pow(k, j + 1) >= k + j * (k - 1),
    decreases j,
{
    if j == 0 {
        lemma_pow1(k);
    } else {
        lemma_power_line(k, (j - 1) as nat);
        lemma_pow_adds(k, 1, j);
        lemma_pow1(k);
        let before = pow(k, j);
        assert(k * before >= k + j * (k - 1)) by (nonlinear_arith)
            requires
                k >= 2,
                j >= 1,
                before >= k + (j - 1) * (k - 1),
        ;
    }
}

/// The room of one word of `l` symbols is above the straight line that meets it at
/// `d` and at `d + 1` symbols.
proof fn lemma_room_line(k: int, d: nat, depth: nat, l: nat)
    requires
        k >= 2,
        l <= depth,
        d + 1 <= depth,
    ensures
        pow(k, (depth - l) as nat) >= pow(k, (depth - d - 1) as nat) * (k - (l - d) * (k - 1)),
{
    let unit = pow(k, (depth - d - 1) as nat);
    lemma_pow_positive(k, (depth - d - 1) as nat);
    lemma_pow_positive(k, (depth - l) as nat);
    if l <= d {
        let j = (d - l) as nat;
        lemma_power_line(k, j);
        lemma_pow_adds(k, (depth - d - 1) as nat, j + 1);
        let grown = pow(k, j + 1);
        assert(unit * grown >= unit * (k - (l - d) * (k - 1))) by (nonlinear_arith)
            requires
                unit > 0,
                grown >= k + j * (k - 1),
                j == d - l,
        ;
    } else if l == d + 1 {
        assert(unit * (k - (l - d) * (k - 1)) == unit) by (nonlinear_arith)
            requires
                l - d == 1,
        ;
    } else {
        assert(unit * (k - (l - d) * (k - 1)) <= 0) by (nonlinear_arith)
            requires
                unit > 0,
                k >= 2,
                l - d >= 2,
        ;
    }
}

/// The room of the words is above what the straight line gives for their number and
/// their total length.
proof fn lemma_weight_line(words: Seq<Seq<char>>, k: int, d: nat, depth: nat)
    requires
        k >= 2,
        d + 1 <= depth,
        within(words, depth as int),
    ensures
        weight(words, k, depth as int) >= pow(k, (depth - d - 1) as nat) * (words.len() * k - (
        total_len(words) - words.len() * d) * (k - 1)),
    decreases words.len(),
{
    let unit = pow(k, (depth - d - 1) as nat);
    if words.len() == 0 {
        assert(unit * (0 * k - (0 - 0 * d) * (k - 1)) == 0) by (nonlinear_arith);
    } else {
        let front = words.drop_last();
        let l = words.last().len();
        assert forall|i: int| 0 <= i < front.len() implies (#[trigger] front[i]).len() <= depth by {
            assert(front[i] == words[i]);
        }
        assert(words[words.len() - 1].len() <= depth);
        lemma_weight_line(front, k, d, depth);
        lemma_room_line(k, d, depth, l);
        let n = front.len() as int;
        let t = total_len(front);
        assert(unit * (n * k - (t - n * d) * (k - 1)) + unit * (k - (l - d) * (k - 1)) == unit * ((n
            + 1) * k - (t + l - (n + 1) * d) * (k - 1))) by (nonlinear_arith);
    }
}

/// The hints of an assignment have `n * (d + 1) - s` symbols together, where `d` is
/// the length of the shorter hints and `s` their number.
pub proof fn lemma_total_of_hints(symbols: Seq<char>, n: nat)
    requires
        n >= 1,
        symbols.len() >= 2 || (symbols.len() == 1 && n == 1),
    ensures
        total_len(hint_labels(symbols, n)) == n * (short_len(symbols.len() as int, n as int) + 1)
            - short_count(symbols.len() as int, n as int),
{
    lemma_shape(symbols.len() as int, n as int);
    lemma_total_upto(symbols, n, n);
    assert(hint_labels(symbols, n).take(n as int) =~= hint_labels(symbols, n));
    let d = short_len(symbols.len() as int, n as int);
    let short = short_count(symbols.len() as int, n as int);
    assert(short * d + (n - short) * (d + 1) == n * (d + 1) - short) by (nonlinear_arith);
}

/// The first `i` hints of an assignment have `d` symbols each as far as they are among
/// the shorter hints, and `d + 1` each beyond.
proof fn lemma_total_upto(symbols: Seq<char>, n: nat, i: nat)
    requires
        n >= 1,
        symbols.len() >= 2 || (symbols.len() == 1 && n == 1),
        i <= n,
    ensures
        total_len(hint_labels(symbols, n).take(i as int)) == if i <= short_count(
            symbols.len() as int,
            n as int,
        ) {
            (i * short_len(symbols.len() as int, n as int)) as int
        } else {
            short_count(symbols.len() as int, n as int) * short_len(symbols.len() as int, n as int)
                + (i - short_count(symbols.len() as int, n as int)) * (short_len(
                symbols.len() as int,
                n as int,
            ) + 1)
        },
    decreases i,
{
    let d = short_len(symbols.len() as int, n as int);
    let short = short_count(symbols.len() as int, n as int);
    let labels = hint_labels(symbols, n);
    lemma_shape(symbols.len() as int, n as int);
    if i == 0 {
        assert(labels.take(0) =~= Seq::empty());
        assert(0 * d == 0);
    } else {
        lemma_total_upto(symbols, n, (i - 1) as nat);
        lemma_hint_symbols(symbols, n as int, i - 1);
        assert(labels.take(i as int).drop_last() =~= labels.take(i - 1));
        assert(labels.take(i as int).last() == hint_label(symbols, n as int, i - 1));
        if i <= short {
            assert((i - 1) * d + d == i * d) by (nonlinear_arith);
        } else if i - 1 <= short {
            assert(i - 1 == short);
            assert((i - short) * (d + 1) == d + 1) by (nonlinear_arith)
                requires
                    i - short == 1,
            ;
        } else {
            assert((i - 1 - short) * (d + 1) + (d + 1) == (i - short) * (d + 1)) by (nonlinear_arith);
        }
    }
}

/// The hints are as short as hints can be: any other words for as many windows, each
/// with a symbol at least, written with the same symbols, and none the beginning of
/// another, have as many symbols together as the hints of the assignment, or more.
pub proof fn lemma_hints_shortest(symbols: Seq<char>, words: Seq<Seq<char>>)
    requires
        symbols.no_duplicates(),
        words.len() >= 1,
        enough_symbols(symbols.len() as int, words.len() as int),
        prefix_free(words),
        none_empty(words),
        written_with(words, symbols),
    ensures
        total_len(hint_labels(symbols, words.len())) <= total_len(words),
{
    let k = symbols.len() as int;
    let n = words.len() as int;
    let d = short_len(k, n);
    let p = level_width(k, n);
    let m = parents(k, n);
    let short = short_count(k, n);
    let total = total_len(words);
    lemma_shape(k, n);
    lemma_total_of_hints(symbols, words.len());
    lemma_total_least(words);
    if d == 0 {
        lemma_pow0(k);
        assert(n * (d + 1) - short <= n) by (nonlinear_arith)
            requires
                d == 0,
                short >= 0,
        ;
    } else {
        let depth: nat = if longest(words) > d + 1 {
            longest(words)
        } else {
            d + 1
        };
        lemma_longest(words, depth as int);
        lemma_room(words, symbols, depth);
        lemma_weight_line(words, k, d, depth);
        let unit = pow(k, (depth - d - 1) as nat);
        lemma_pow_positive(k, (depth - d - 1) as nat);
        lemma_pow_adds(k, (depth - d - 1) as nat, d + 1);
        lemma_pow_adds(k, d, 1);
        lemma_pow1(k);
        assert(pow(k, depth) == unit * (p * k));
        let rest = total - n * d;
        assert(n * k - rest * (k - 1) <= p * k) by (nonlinear_arith)
            requires
                unit > 0,
                unit * (n * k - rest * (k - 1)) <= unit * (p * k),
        ;
        assert(m == (n - p - 1) / (k - 1) + 1);
        assert(rest >= n - p + m) by (nonlinear_arith)
            requires
                k >= 2,
                n > p,
                m == (n - p - 1) / (k - 1) + 1,
                n * k - rest * (k - 1) <= p * k,
        ;
        assert(n * (d + 1) - short == n * d + (n - p + m)) by (nonlinear_arith)
            requires
                short == p - m,
        ;
    }
}

} // verus!
