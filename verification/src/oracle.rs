//! The oracle: exact win, runner-up and loss chances for each camel,
//! computed by exhausting the game tree and tallying its leaves.

use vstd::prelude::*;
use crate::camel::{spec_loser, spec_runner_up, spec_winner, Camel, Dice, Marker, Race};
use crate::fraction::{spec_reduce, Fraction};
use crate::tree::{race_views, spec_leaves, Tree};

verus! {

/// How many of the leaves crown the given camel as winner.
pub open spec fn count_winner(leaves: Seq<Seq<Marker>>, camel: Camel) -> nat
    decreases leaves.len(),
{
    if leaves.len() == 0 {
        0
    } else {
        count_winner(leaves.drop_last(), camel) + (if spec_winner(leaves.last()) == Some(camel) {
            1nat
        } else {
            0nat
        })
    }
}

/// How many of the leaves see the given camel as runner up.
pub open spec fn count_runner_up(leaves: Seq<Seq<Marker>>, camel: Camel) -> nat
    decreases leaves.len(),
{
    if leaves.len() == 0 {
        0
    } else {
        count_runner_up(leaves.drop_last(), camel) + (if spec_runner_up(leaves.last()) == Some(
            camel,
        ) {
            1nat
        } else {
            0nat
        })
    }
}

/// How many of the leaves leave the given camel last.
pub open spec fn count_loser(leaves: Seq<Seq<Marker>>, camel: Camel) -> nat
    decreases leaves.len(),
{
    if leaves.len() == 0 {
        0
    } else {
        count_loser(leaves.drop_last(), camel) + (if spec_loser(leaves.last()) == Some(camel) {
            1nat
        } else {
            0nat
        })
    }
}

/// How many of the leaves have no winner at all.
pub open spec fn count_without_winner(leaves: Seq<Seq<Marker>>) -> nat
    decreases leaves.len(),
{
    if leaves.len() == 0 {
        0
    } else {
        count_without_winner(leaves.drop_last()) + (if spec_winner(leaves.last()) is None {
            1nat
        } else {
            0nat
        })
    }
}

/// How many of the leaves have no runner up.
pub open spec fn count_without_runner_up(leaves: Seq<Seq<Marker>>) -> nat
    decreases leaves.len(),
{
    if leaves.len() == 0 {
        0
    } else {
        count_without_runner_up(leaves.drop_last()) + (if spec_runner_up(leaves.last()) is None {
            1nat
        } else {
            0nat
        })
    }
}

/// How many of the leaves have no loser.
pub open spec fn count_without_loser(leaves: Seq<Seq<Marker>>) -> nat
    decreases leaves.len(),
{
    if leaves.len() == 0 {
        0
    } else {
        count_without_loser(leaves.drop_last()) + (if spec_loser(leaves.last()) is None {
            1nat
        } else {
            0nat
        })
    }
}

/// In every category the tallies of the five camels and the leaves that have
/// nobody in that category add up to exactly the number of leaves.
pub proof fn lemma_category_totals(leaves: Seq<Seq<Marker>>)
    ensures
        count_winner(leaves, Camel::Red) + count_winner(leaves, Camel::Orange) + count_winner(
            leaves,
            Camel::Yellow,
        ) + count_winner(leaves, Camel::Green) + count_winner(leaves, Camel::White)
            + count_without_winner(leaves) == leaves.len(),
        count_runner_up(leaves, Camel::Red) + count_runner_up(leaves, Camel::Orange)
            + count_runner_up(leaves, Camel::Yellow) + count_runner_up(leaves, Camel::Green)
            + count_runner_up(leaves, Camel::White) + count_without_runner_up(leaves)
            == leaves.len(),
        count_loser(leaves, Camel::Red) + count_loser(leaves, Camel::Orange) + count_loser(
            leaves,
            Camel::Yellow,
        ) + count_loser(leaves, Camel::Green) + count_loser(leaves, Camel::White)
            + count_without_loser(leaves) == leaves.len(),
    decreases leaves.len(),
{
    if leaves.len() > 0 {
        lemma_category_totals(leaves.drop_last());
    }
}

/// No tally can exceed the number of leaves.
pub proof fn lemma_tally_bound(leaves: Seq<Seq<Marker>>, camel: Camel)
    ensures
        count_winner(leaves, camel) <= leaves.len(),
        count_runner_up(leaves, camel) <= leaves.len(),
        count_loser(leaves, camel) <= leaves.len(),
    decreases leaves.len(),
{
    if leaves.len() > 0 {
        lemma_tally_bound(leaves.drop_last(), camel);
    }
}

/// Every chance the oracle reports lies between zero and one: a tally never
/// exceeds the number of leaves, so the reduced fraction has a numerator
/// between zero and its denominator.
pub proof fn lemma_chance_within_unit(leaves: Seq<Seq<Marker>>, camel: Camel)
    requires
        leaves.len() >= 1,
    ensures
        0 <= spec_reduce(count_winner(leaves, camel) as int, leaves.len() as int).0 <= spec_reduce(
            count_winner(leaves, camel) as int,
            leaves.len() as int,
        ).1,
        0 <= spec_reduce(count_runner_up(leaves, camel) as int, leaves.len() as int).0
            <= spec_reduce(count_runner_up(leaves, camel) as int, leaves.len() as int).1,
        0 <= spec_reduce(count_loser(leaves, camel) as int, leaves.len() as int).0 <= spec_reduce(
            count_loser(leaves, camel) as int,
            leaves.len() as int,
        ).1,
{
    lemma_tally_bound(leaves, camel);
    crate::fraction::lemma_reduce_within_unit(
        count_winner(leaves, camel) as int,
        leaves.len() as int,
    );
    crate::fraction::lemma_reduce_within_unit(
        count_runner_up(leaves, camel) as int,
        leaves.len() as int,
    );
    crate::fraction::lemma_reduce_within_unit(
        count_loser(leaves, camel) as int,
        leaves.len() as int,
    );
}

/// The factorial of a number.
pub open spec fn factorial(n: nat) -> nat
    decreases n,
{
    if n == 0 {
        1
    } else {
        n * factorial((n - 1) as nat)
    }
}

/// Three raised to a power.
pub open spec fn pow3(n: nat) -> nat
    decreases n,
{
    if n == 0 {
        1
    } else {
        3 * pow3((n - 1) as nat)
    }
}

/// A pool of `n` dice yields exactly `n! * 3^n` leaves: one leaf per ordered
/// sequence of draws, each die showing one of three faces.
pub proof fn lemma_leaf_count(s: Seq<Marker>, pool: Seq<Camel>)
    ensures
        spec_leaves(s, pool).len() == factorial(pool.len()) * pow3(pool.len()),
    decreases pool.len(), 1int, 0int,
{
    let n = pool.len();
    if n == 0 {
        assert(factorial(0) == 1);
        assert(pow3(0) == 1);
        assert(spec_leaves(s, pool).len() == 1);
    } else {
        lemma_leaf_count_from(s, pool, 0);
        let f = factorial((n - 1) as nat);
        let p = pow3((n - 1) as nat);
        assert(spec_leaves(s, pool).len() == n * (3 * (f * p)));
        assert(factorial(n) == n * f);
        assert(pow3(n) == 3 * p);
        assert(n * (3 * (f * p)) == (n * f) * (3 * p)) by (nonlinear_arith);
    }
}

proof fn lemma_leaf_count_from(s: Seq<Marker>, pool: Seq<Camel>, i: int)
    requires
        0 <= i <= pool.len(),
        pool.len() > 0,
    ensures
        spec_leaves_from_len(s, pool, i) == (pool.len() - i) * (3 * (factorial(
            (pool.len() - 1) as nat,
        ) * pow3((pool.len() - 1) as nat))),
    decreases pool.len(), 0int, pool.len() - i,
{
    let n = pool.len();
    let sub = factorial((n - 1) as nat) * pow3((n - 1) as nat);
    if i == n {
        assert((n - i) * (3 * sub) == 0) by (nonlinear_arith)
            requires
                i == n,
        ;
    } else {
        let rest = pool.remove(i);
        assert(rest.len() == n - 1);
        lemma_leaf_count(crate::camel::spec_perform(s, pool[i], 1), rest);
        lemma_leaf_count(crate::camel::spec_perform(s, pool[i], 2), rest);
        lemma_leaf_count(crate::camel::spec_perform(s, pool[i], 3), rest);
        lemma_leaf_count_from(s, pool, i + 1);
        assert(spec_leaves_from_len(s, pool, i) == 3 * sub + (n - i - 1) * (3 * sub));
        assert(3 * sub + (n - i - 1) * (3 * sub) == (n - i) * (3 * sub)) by (nonlinear_arith);
    }
}

/// The length of the partial leaf list, named so the lemmas can speak of it.
pub open spec fn spec_leaves_from_len(s: Seq<Marker>, pool: Seq<Camel>, i: int) -> nat {
    crate::tree::spec_leaves_from(s, pool, i).len()
}

/// A pool without repeated camels holds at most the five camels there are.
pub proof fn lemma_pool_at_most_five(pool: Seq<Camel>)
    requires
        pool.no_duplicates(),
    ensures
        pool.len() <= 5,
{
    if pool.len() > 5 {
        assert(pool[0] != pool[1] && pool[0] != pool[2] && pool[0] != pool[3] && pool[0] != pool[4]
            && pool[0] != pool[5]);
        assert(pool[1] != pool[2] && pool[1] != pool[3] && pool[1] != pool[4] && pool[1]
            != pool[5]);
        assert(pool[2] != pool[3] && pool[2] != pool[4] && pool[2] != pool[5]);
        assert(pool[3] != pool[4] && pool[3] != pool[5]);
        assert(pool[4] != pool[5]);
        assert(false);
    }
}

/// For at most five dice the leaf count stays small: never above
/// `5! * 3^5 == 29160`, and always at least one.
pub proof fn lemma_leaf_count_small(n: nat)
    requires
        n <= 5,
    ensures
        1 <= factorial(n) * pow3(n) <= 29160,
{
    assert(factorial(0) == 1);
    assert(factorial(1) == 1);
    assert(factorial(2) == 2);
    assert(factorial(3) == 6);
    assert(factorial(4) == 24);
    assert(factorial(5) == 120);
    assert(pow3(0) == 1);
    assert(pow3(1) == 3);
    assert(pow3(2) == 9);
    assert(pow3(3) == 27);
    assert(pow3(4) == 81);
    assert(pow3(5) == 243);
    assert(1 <= factorial(n) * pow3(n) <= 29160) by (nonlinear_arith)
        requires
            n <= 5,
            factorial(0) == 1 && pow3(0) == 1,
            factorial(1) == 1 && pow3(1) == 3,
            factorial(2) == 2 && pow3(2) == 9,
            factorial(3) == 6 && pow3(3) == 27,
            factorial(4) == 24 && pow3(4) == 81,
            factorial(5) == 120 && pow3(5) == 243,
    ;
}

/// Looks a camel up in an association list; a missing camel yields the
/// fallback. With keys unique, at most one entry can match.
pub open spec fn lookup_pair<V>(entries: Seq<(Camel, V)>, camel: Camel, otherwise: V) -> V
    decreases entries.len(),
{
    if entries.len() == 0 {
        otherwise
    } else if has_key(entries.drop_last(), camel) {
        lookup_pair(entries.drop_last(), camel, otherwise)
    } else if entries.last().0 == camel {
        entries.last().1
    } else {
        otherwise
    }
}

/// Does some entry carry the camel as its key?
pub open spec fn has_key<V>(entries: Seq<(Camel, V)>, camel: Camel) -> bool {
    exists|i: int| #![trigger entries[i]] 0 <= i < entries.len() && entries[i].0 == camel
}

/// No two entries carry the same camel.
pub open spec fn unique_keys<V>(entries: Seq<(Camel, V)>) -> bool {
    forall|i: int, j: int|
        #![trigger entries[i], entries[j]]
        0 <= i < j < entries.len() ==> entries[i].0 != entries[j].0
}

proof fn lemma_has_key_extend<V>(entries: Seq<(Camel, V)>, entry: (Camel, V))
    ensures
        forall|c: Camel| #[trigger]
            has_key(entries.push(entry), c) == (has_key(entries, c) || c == entry.0),
{
    let grown = entries.push(entry);
    assert(forall|k: int| 0 <= k < entries.len() ==> grown[k] == entries[k]);
    assert(grown[entries.len() as int] == entry);
    assert forall|c: Camel| #[trigger]
        has_key(grown, c) == (has_key(entries, c) || c == entry.0) by {
        if has_key(entries, c) {
            let w = choose|i: int| 0 <= i < entries.len() && entries[i].0 == c;
            assert(grown[w].0 == c);
        }
        if c == entry.0 {
            assert(grown[entries.len() as int].0 == c);
        }
        if has_key(grown, c) && !has_key(entries, c) && c != entry.0 {
            let w = choose|i: int| 0 <= i < grown.len() && grown[i].0 == c;
            assert(w < entries.len() ==> entries[w].0 == c);
            assert(false);
        }
    }
}

proof fn lemma_lookup_push<V>(entries: Seq<(Camel, V)>, entry: (Camel, V), otherwise: V)
    ensures
        forall|c: Camel|
            #[trigger] lookup_pair(entries.push(entry), c, otherwise) == (if !has_key(entries, c)
                && c == entry.0 {
                entry.1
            } else {
                lookup_pair(entries, c, otherwise)
            }),
        forall|c: Camel| #[trigger]
            has_key(entries.push(entry), c) == (has_key(entries, c) || c == entry.0),
{
    let grown = entries.push(entry);
    lemma_has_key_extend(entries, entry);
    assert(grown.drop_last() =~= entries);
    assert(grown.last() == entry);
    assert forall|c: Camel|
        #[trigger] lookup_pair(grown, c, otherwise) == (if !has_key(entries, c) && c == entry.0 {
            entry.1
        } else {
            lookup_pair(entries, c, otherwise)
        }) by {
        if !has_key(entries, c) && c != entry.0 {
            lemma_lookup_no_key(entries, c, otherwise);
        }
    }
}

proof fn lemma_lookup_no_key<V>(entries: Seq<(Camel, V)>, camel: Camel, otherwise: V)
    requires
        !has_key(entries, camel),
    ensures
        lookup_pair(entries, camel, otherwise) == otherwise,
    decreases entries.len(),
{
    if entries.len() > 0 {
        assert(forall|k: int|
            0 <= k < entries.len() - 1 ==> entries.drop_last()[k] == entries[k]);
        assert(!has_key(entries.drop_last(), camel));
        assert(entries[entries.len() - 1].0 != camel);
        lemma_lookup_no_key(entries.drop_last(), camel, otherwise);
    }
}

proof fn lemma_lookup_found<V>(entries: Seq<(Camel, V)>, at: int, otherwise: V)
    requires
        0 <= at < entries.len(),
        forall|k: int| #![trigger entries[k]] 0 <= k < at ==> entries[k].0 != entries[at].0,
    ensures
        lookup_pair(entries, entries[at].0, otherwise) == entries[at].1,
        has_key(entries, entries[at].0),
    decreases entries.len(),
{
    let fore = entries.drop_last();
    assert(forall|k: int| 0 <= k < fore.len() ==> fore[k] == entries[k]);
    assert(entries[at].0 == entries[at].0);
    if at == entries.len() - 1 {
        assert forall|k: int| #![trigger fore[k]] 0 <= k < fore.len() implies fore[k].0
            != entries[at].0 by {
            assert(entries[k].0 != entries[at].0);
        }
        assert(!has_key(fore, entries[at].0));
        assert(entries.last() == entries[at]);
    } else {
        lemma_lookup_found(fore, at, otherwise);
        assert(has_key(fore, entries[at].0));
    }
}

proof fn lemma_lookup_absent<V>(entries: Seq<(Camel, V)>, camel: Camel, otherwise: V)
    requires
        forall|k: int| #![trigger entries[k]] 0 <= k < entries.len() ==> entries[k].0 != camel,
    ensures
        lookup_pair(entries, camel, otherwise) == otherwise,
        !has_key(entries, camel),
{
    lemma_lookup_no_key(entries, camel, otherwise);
}

proof fn lemma_lookup_update<V>(entries: Seq<(Camel, V)>, at: int, value: V, otherwise: V)
    requires
        0 <= at < entries.len(),
        unique_keys(entries),
    ensures
        forall|c: Camel|
            #[trigger] lookup_pair(entries.update(at, (entries[at].0, value)), c, otherwise) == (
            if c == entries[at].0 {
                value
            } else {
                lookup_pair(entries, c, otherwise)
            }),
        forall|c: Camel| #[trigger]
            has_key(entries.update(at, (entries[at].0, value)), c) == has_key(entries, c),
        unique_keys(entries.update(at, (entries[at].0, value))),
    decreases entries.len(),
{
    let renewed = entries.update(at, (entries[at].0, value));
    assert(renewed.len() == entries.len());
    assert(forall|k: int| #![trigger renewed[k]] 0 <= k < entries.len() ==> renewed[k].0 == entries[k].0);
    lemma_has_key_same_keys(renewed, entries);
    assert(unique_keys(renewed));
    let fore = entries.drop_last();
    assert(forall|k: int| 0 <= k < fore.len() ==> fore[k] == entries[k]);
    if at == entries.len() - 1 {
        assert(renewed.drop_last() =~= fore);
        assert(renewed.last() == (entries[at].0, value));
        assert forall|c: Camel|
            #[trigger] lookup_pair(renewed, c, otherwise) == (if c == entries[at].0 {
                value
            } else {
                lookup_pair(entries, c, otherwise)
            }) by {
            if c == entries[at].0 {
                assert forall|k: int| #![trigger fore[k]] 0 <= k < fore.len() implies fore[k].0 != c by {
                    assert(entries[k].0 != entries[at].0);
                }
                assert(!has_key(fore, c));
            }
        }
    } else {
        assert(fore.len() > 0);
        assert(unique_keys(fore)) by {
            assert forall|i: int, j: int|
                #![trigger fore[i], fore[j]]
                0 <= i < j < fore.len() implies fore[i].0 != fore[j].0 by {
                assert(entries[i].0 != entries[j].0);
            }
        }
        lemma_lookup_update(fore, at, value, otherwise);
        let fore2 = fore.update(at, (fore[at].0, value));
        assert(renewed.drop_last() =~= fore2);
        assert(renewed.last() == entries.last());
        assert forall|c: Camel|
            #[trigger] lookup_pair(renewed, c, otherwise) == (if c == entries[at].0 {
                value
            } else {
                lookup_pair(entries, c, otherwise)
            }) by {
            assert(lookup_pair(fore2, c, otherwise) == (if c == fore[at].0 {
                value
            } else {
                lookup_pair(fore, c, otherwise)
            }));
            assert(has_key(fore2, c) == has_key(fore, c));
            assert(fore[at].0 == entries[at].0);
            if c == entries[at].0 {
                assert(fore[at].0 == c);
                assert(has_key(fore, c));
            }
        }
    }
}

proof fn lemma_has_key_same_keys<V>(a: Seq<(Camel, V)>, b: Seq<(Camel, V)>)
    requires
        a.len() == b.len(),
        forall|k: int| #![trigger a[k]] 0 <= k < a.len() ==> a[k].0 == b[k].0,
    ensures
        forall|c: Camel| #[trigger] has_key(a, c) == has_key(b, c),
{
    assert forall|c: Camel| #[trigger] has_key(a, c) == has_key(b, c) by {
        if has_key(a, c) {
            let w = choose|i: int| 0 <= i < a.len() && a[i].0 == c;
            assert(b[w].0 == c);
        }
        if has_key(b, c) {
            let w = choose|i: int| 0 <= i < b.len() && b[i].0 == c;
            assert(a[w].0 == c);
        }
    }
}

/// The chances of each camel for one outcome category. A camel that never
/// reaches the category has chance zero, reported without an entry.
pub struct Distribution {
    entries: Vec<(Camel, Fraction)>,
    otherwise: Fraction,
}

impl Distribution {
    /// The entries actually stored, in insertion order.
    pub closed spec fn spec_entries(&self) -> Seq<(Camel, Fraction)> {
        self.entries@
    }

    /// The chance reported for a camel: its entry, or the fallback.
    pub closed spec fn spec_lookup(&self, camel: Camel) -> Fraction {
        lookup_pair(self.entries@, camel, self.otherwise)
    }

    /// The fallback chance for camels without an entry.
    pub closed spec fn spec_otherwise(&self) -> Fraction {
        self.otherwise
    }

    /// Builds a distribution from explicit entries; camels without one are
    /// reported as zero.
    pub fn from_entries(entries: Vec<(Camel, Fraction)>) -> (d: Distribution)
        ensures
            d.spec_entries() == entries@,
            d.spec_otherwise().num() == 0 && d.spec_otherwise().den() == 1,
            forall|c: Camel| #[trigger]
                d.spec_lookup(c) == lookup_pair(
                    entries@,
                    c,
                    d.spec_otherwise(),
                ),
    {
        Distribution { entries, otherwise: Fraction::zero() }
    }

    /// The chance of the given camel.
    pub fn get(&self, camel: &Camel) -> (f: Fraction)
        ensures
            f == self.spec_lookup(*camel),
    {
        let n = self.entries.len();
        let mut i: usize = 0;
        while i < n
            invariant
                n == self.entries@.len(),
                i <= n,
                forall|k: int| 0 <= k < i ==> self.entries@[k].0 != *camel,
            decreases n - i,
        {
            let (key, chance) = self.entries[i];
            if key == *camel {
                proof {
                    lemma_lookup_found(self.entries@, i as int, self.otherwise);
                }
                return chance;
            }
            i += 1;
        }
        proof {
            lemma_lookup_absent(self.entries@, *camel, self.otherwise);
        }
        self.otherwise
    }

    /// The stored entries: each camel with an explicit chance, paired with
    /// it.
    pub fn values(&self) -> (r: &Vec<(Camel, Fraction)>)
        ensures
            r@ == self.spec_entries(),
    {
        &self.entries
    }
}

/// All the relevant chances for each camel: who wins, who comes in second,
/// who comes in last.
pub struct Chances {
    /// Distribution of the chance to win.
    pub winner: Distribution,
    /// Distribution of the chance to be runner up.
    pub runner_up: Distribution,
    /// Distribution of the chance to lose.
    pub loser: Distribution,
}

/// Adds one to a camel's tally in an association list, inserting the entry
/// if the camel has none yet.
fn bump(entries: &mut Vec<(Camel, usize)>, camel: Camel)
    requires
        unique_keys(old(entries)@),
        lookup_pair(old(entries)@, camel, 0usize) < usize::MAX,
    ensures
        unique_keys(final(entries)@),
        forall|c: Camel| #[trigger]
            lookup_pair(final(entries)@, c, 0usize) as int == lookup_pair(
                old(entries)@,
                c,
                0usize,
            ) as int + (if c == camel {
                1int
            } else {
                0int
            }),
{
    let n = entries.len();
    let mut i: usize = 0;
    while i < n
        invariant
            n == entries@.len(),
            i <= n,
            entries@ == old(entries)@,
            unique_keys(entries@),
            lookup_pair(entries@, camel, 0usize) < usize::MAX,
            forall|k: int| #![trigger entries@[k]] 0 <= k < i ==> entries@[k].0 != camel,
        decreases n - i,
    {
        let (key, count) = entries[i];
        if key == camel {
            proof {
                lemma_lookup_found(entries@, i as int, 0usize);
                lemma_lookup_update(entries@, i as int, (count + 1) as usize, 0usize);
            }
            entries[i] = (camel, count + 1);
            return ;
        }
        i += 1;
    }
    proof {
        lemma_lookup_absent(entries@, camel, 0usize);
        lemma_lookup_push(entries@, (camel, 1usize), 0usize);
    }
    let ghost before = entries@;
    entries.push((camel, 1));
    proof {
        assert forall|i2: int, j2: int|
            #![trigger entries@[i2], entries@[j2]]
            0 <= i2 < j2 < entries@.len() implies entries@[i2].0 != entries@[j2].0 by {
            if j2 < before.len() {
                assert(entries@[i2] == before[i2]);
                assert(entries@[j2] == before[j2]);
            } else {
                assert(entries@[i2] == before[i2]);
                assert(entries@[j2].0 == camel);
            }
        }
    }
}

/// Tallies, over the leaves seen so far, how often each camel was winner,
/// runner up and loser, and how many leaves were seen in all.
pub struct LeafCounter {
    total: usize,
    winner: Vec<(Camel, usize)>,
    runner_up: Vec<(Camel, usize)>,
    loser: Vec<(Camel, usize)>,
}

impl LeafCounter {
    /// How many leaves have been counted.
    pub closed spec fn spec_total(&self) -> nat {
        self.total as nat
    }

    /// How often the camel was counted as winner.
    pub closed spec fn winner_tally(&self, camel: Camel) -> nat {
        lookup_pair(self.winner@, camel, 0usize) as nat
    }

    /// How often the camel was counted as runner up.
    pub closed spec fn runner_up_tally(&self, camel: Camel) -> nat {
        lookup_pair(self.runner_up@, camel, 0usize) as nat
    }

    /// How often the camel was counted as loser.
    pub closed spec fn loser_tally(&self, camel: Camel) -> nat {
        lookup_pair(self.loser@, camel, 0usize) as nat
    }

    /// The invariant the counter maintains: tallies are uniquely keyed and
    /// never exceed the number of leaves seen.
    pub closed spec fn wf(&self) -> bool {
        &&& unique_keys(self.winner@)
        &&& unique_keys(self.runner_up@)
        &&& unique_keys(self.loser@)
        &&& forall|c: Camel| #[trigger] self.winner_tally(c) <= self.spec_total()
        &&& forall|c: Camel| #[trigger] self.runner_up_tally(c) <= self.spec_total()
        &&& forall|c: Camel| #[trigger] self.loser_tally(c) <= self.spec_total()
    }

    /// A counter that has seen nothing yet.
    pub fn new() -> (r: LeafCounter)
        ensures
            r.wf(),
            r.spec_total() == 0,
            forall|c: Camel| #[trigger] r.winner_tally(c) == 0,
            forall|c: Camel| #[trigger] r.runner_up_tally(c) == 0,
            forall|c: Camel| #[trigger] r.loser_tally(c) == 0,
    {
        LeafCounter { total: 0, winner: Vec::new(), runner_up: Vec::new(), loser: Vec::new() }
    }

    /// Counts one leaf: whoever is winner, runner up or loser there gets one
    /// more in the matching tally.
    pub fn observe(&mut self, race: &Race)
        requires
            old(self).wf(),
            old(self).spec_total() < usize::MAX,
        ensures
            final(self).wf(),
            final(self).spec_total() == old(self).spec_total() + 1,
            forall|c: Camel| #[trigger]
                final(self).winner_tally(c) == old(self).winner_tally(c) + (if spec_winner(race@)
                    == Some(c) {
                    1nat
                } else {
                    0nat
                }),
            forall|c: Camel| #[trigger]
                final(self).runner_up_tally(c) == old(self).runner_up_tally(c) + (if
                spec_runner_up(race@) == Some(c) {
                    1nat
                } else {
                    0nat
                }),
            forall|c: Camel| #[trigger]
                final(self).loser_tally(c) == old(self).loser_tally(c) + (if spec_loser(race@)
                    == Some(c) {
                    1nat
                } else {
                    0nat
                }),
    {
        match race.winner() {
            Some(champion) => {
                proof {
                    assert(old(self).winner_tally(champion) <= old(self).spec_total());
                }
                bump(&mut self.winner, champion);
            },
            None => {},
        }
        match race.runner_up() {
            Some(second) => {
                proof {
                    assert(old(self).runner_up_tally(second) <= old(self).spec_total());
                    assert(lookup_pair(self.runner_up@, second, 0usize) == old(
                        self,
                    ).runner_up_tally(second));
                }
                bump(&mut self.runner_up, second);
            },
            None => {},
        }
        match race.loser() {
            Some(last_one) => {
                proof {
                    assert(old(self).loser_tally(last_one) <= old(self).spec_total());
                    assert(lookup_pair(self.loser@, last_one, 0usize) == old(self).loser_tally(
                        last_one,
                    ));
                }
                bump(&mut self.loser, last_one);
            },
            None => {},
        }
        self.total = self.total + 1;
        proof {
            assert forall|c: Camel| #[trigger] self.winner_tally(c) <= self.spec_total() by {
                assert(old(self).winner_tally(c) <= old(self).spec_total());
            }
            assert forall|c: Camel| #[trigger] self.runner_up_tally(c) <= self.spec_total() by {
                assert(old(self).runner_up_tally(c) <= old(self).spec_total());
            }
            assert forall|c: Camel| #[trigger] self.loser_tally(c) <= self.spec_total() by {
                assert(old(self).loser_tally(c) <= old(self).spec_total());
            }
        }
    }

    /// Turns the tallies into exact chances: each tally divided by the number
    /// of leaves.
    pub fn chances(&self) -> (result: Chances)
        requires
            self.wf(),
            1 <= self.spec_total() <= i64::MAX,
        ensures
            forall|c: Camel|
                #![auto]
                (result.winner.spec_lookup(c).num(), result.winner.spec_lookup(c).den())
                    == spec_reduce(self.winner_tally(c) as int, self.spec_total() as int),
            forall|c: Camel|
                #![auto]
                (result.runner_up.spec_lookup(c).num(), result.runner_up.spec_lookup(c).den())
                    == spec_reduce(self.runner_up_tally(c) as int, self.spec_total() as int),
            forall|c: Camel|
                #![auto]
                (result.loser.spec_lookup(c).num(), result.loser.spec_lookup(c).den())
                    == spec_reduce(self.loser_tally(c) as int, self.spec_total() as int),
    {
        proof {
            assert forall|c: Camel| #[trigger] lookup_pair(self.winner@, c, 0usize)
                <= self.total by {
                assert(self.winner_tally(c) <= self.spec_total());
            }
            assert forall|c: Camel| #[trigger] lookup_pair(self.runner_up@, c, 0usize)
                <= self.total by {
                assert(self.runner_up_tally(c) <= self.spec_total());
            }
            assert forall|c: Camel| #[trigger] lookup_pair(self.loser@, c, 0usize)
                <= self.total by {
                assert(self.loser_tally(c) <= self.spec_total());
            }
        }
        let winner = to_distribution(&self.winner, self.total);
        let runner_up = to_distribution(&self.runner_up, self.total);
        let loser = to_distribution(&self.loser, self.total);
        Chances { winner, runner_up, loser }
    }
}

impl Default for LeafCounter {
    /// The default counter has seen nothing yet.
    fn default() -> (r: LeafCounter)
        ensures
            r.wf(),
            r.spec_total() == 0,
            forall|c: Camel| #[trigger] r.winner_tally(c) == 0,
            forall|c: Camel| #[trigger] r.runner_up_tally(c) == 0,
            forall|c: Camel| #[trigger] r.loser_tally(c) == 0,
    {
        LeafCounter::new()
    }
}

/// Divides each tally by the total, giving every listed camel its exact
/// chance.
fn to_distribution(counts: &Vec<(Camel, usize)>, total: usize) -> (d: Distribution)
    requires
        unique_keys(counts@),
        1 <= total <= i64::MAX,
        forall|c: Camel| #[trigger] lookup_pair(counts@, c, 0usize) <= total,
    ensures
        forall|c: Camel|
            #![auto]
            (d.spec_lookup(c).num(), d.spec_lookup(c).den()) == spec_reduce(
                lookup_pair(counts@, c, 0usize) as int,
                total as int,
            ),
{
    let fallback = Fraction::zero();
    let n = counts.len();
    let mut entries: Vec<(Camel, Fraction)> = Vec::new();
    let mut i: usize = 0;
    while i < n
        invariant
            n == counts@.len(),
            i <= n,
            unique_keys(counts@),
            1 <= total <= i64::MAX,
            forall|c: Camel| #[trigger] lookup_pair(counts@, c, 0usize) <= total,
            fallback.num() == 0 && fallback.den() == 1,
            forall|c: Camel| #[trigger]
                has_key(entries@, c) == has_key(counts@.subrange(0, i as int), c),
            forall|c: Camel|
                #![auto]
                (lookup_pair(entries@, c, fallback).num(), lookup_pair(
                    entries@,
                    c,
                    fallback,
                ).den()) == spec_reduce(
                    lookup_pair(counts@.subrange(0, i as int), c, 0usize) as int,
                    total as int,
                ),
        decreases n - i,
    {
        let ghost prefix = counts@.subrange(0, i as int);
        let (key, count) = counts[i];
        proof {
            lemma_lookup_found(counts@, i as int, 0usize);
            assert(lookup_pair(counts@, key, 0usize) == count);
            assert(count <= total);
            assert(counts@.subrange(0, i as int + 1) =~= prefix.push(counts@[i as int]));
            lemma_lookup_push(prefix, counts@[i as int], 0usize);
        }
        let chance = Fraction::new(count as i64, total as u64);
        proof {
            lemma_lookup_push(entries@, (key, chance), fallback);
        }
        entries.push((key, chance));
        proof {
            assert forall|c: Camel|
                #![auto]
                (lookup_pair(entries@, c, fallback).num(), lookup_pair(
                    entries@,
                    c,
                    fallback,
                ).den()) == spec_reduce(
                    lookup_pair(counts@.subrange(0, i as int + 1), c, 0usize) as int,
                    total as int,
                ) by {
                if !has_key(prefix, c) && c == key {
                } else {
                }
            }
        }
        i += 1;
    }
    proof {
        assert(counts@.subrange(0, n as int) =~= counts@);
    }
    Distribution { entries, otherwise: fallback }
}

/// Determines, for each camel, the exact chance of ending the round as
/// winner, runner up and loser.
///
/// Every possible order of drawing the remaining dice, with every face each
/// die can show, is enumerated; every outcome is equally likely, so each
/// chance is the tally of leaves with that outcome over the total number of
/// leaves, `n! * 3^n` for `n` dice.
pub fn project(race: &Race, dice: &Dice) -> (result: Chances)
    ensures
        ({
            let leaves = spec_leaves(race@, dice@);
            let total = leaves.len() as int;
            &&& forall|c: Camel|
                #![auto]
                (result.winner.spec_lookup(c).num(), result.winner.spec_lookup(c).den())
                    == spec_reduce(count_winner(leaves, c) as int, total)
            &&& forall|c: Camel|
                #![auto]
                (result.runner_up.spec_lookup(c).num(), result.runner_up.spec_lookup(c).den())
                    == spec_reduce(count_runner_up(leaves, c) as int, total)
            &&& forall|c: Camel|
                #![auto]
                (result.loser.spec_lookup(c).num(), result.loser.spec_lookup(c).den())
                    == spec_reduce(count_loser(leaves, c) as int, total)
        }),
{
    let ghost leaf_views = spec_leaves(race@, dice@);
    proof {
        use_type_invariant(dice);
        lemma_pool_at_most_five(dice@);
        lemma_leaf_count(race@, dice@);
        lemma_leaf_count_small(dice@.len());
        assert(1 <= leaf_views.len() <= 29160);
    }
    let mut tree = Tree::singleton(race.clone());
    tree.expand(dice);
    let leaves = tree.leaf_list();
    proof {
        assert(race_views(leaves@) == leaf_views);
        assert(leaves@.len() == leaf_views.len());
    }
    let mut counter = LeafCounter::new();
    let n = leaves.len();
    let mut i: usize = 0;
    while i < n
        invariant
            n == leaves@.len(),
            race_views(leaves@) == leaf_views,
            n == leaf_views.len(),
            n <= 29160,
            i <= n,
            counter.wf(),
            counter.spec_total() == i,
            forall|c: Camel| #[trigger]
                counter.winner_tally(c) == count_winner(leaf_views.subrange(0, i as int), c),
            forall|c: Camel| #[trigger]
                counter.runner_up_tally(c) == count_runner_up(leaf_views.subrange(0, i as int), c),
            forall|c: Camel| #[trigger]
                counter.loser_tally(c) == count_loser(leaf_views.subrange(0, i as int), c),
        decreases n - i,
    {
        let ghost prefix = leaf_views.subrange(0, i as int);
        let ghost extended = leaf_views.subrange(0, i as int + 1);
        proof {
            assert(extended.drop_last() =~= prefix);
            assert(extended.last() == leaf_views[i as int]);
            assert(leaves@[i as int]@ == leaf_views[i as int]);
        }
        counter.observe(&leaves[i]);
        i += 1;
    }
    proof {
        assert(leaf_views.subrange(0, n as int) =~= leaf_views);
        assert(counter.spec_total() == leaf_views.len());
        assert(forall|c: Camel| #[trigger]
            counter.winner_tally(c) == count_winner(leaf_views, c));
        assert(forall|c: Camel| #[trigger]
            counter.runner_up_tally(c) == count_runner_up(leaf_views, c));
        assert(forall|c: Camel| #[trigger] counter.loser_tally(c) == count_loser(leaf_views, c));
    }
    let result = counter.chances();
    proof {
        let total = leaf_views.len() as int;
        assert forall|c: Camel|
            #![auto]
            (result.winner.spec_lookup(c).num(), result.winner.spec_lookup(c).den())
                == spec_reduce(count_winner(leaf_views, c) as int, total) by {
            assert((result.winner.spec_lookup(c).num(), result.winner.spec_lookup(c).den())
                == spec_reduce(counter.winner_tally(c) as int, counter.spec_total() as int));
        }
        assert forall|c: Camel|
            #![auto]
            (result.runner_up.spec_lookup(c).num(), result.runner_up.spec_lookup(c).den())
                == spec_reduce(count_runner_up(leaf_views, c) as int, total) by {
            assert((result.runner_up.spec_lookup(c).num(), result.runner_up.spec_lookup(c).den())
                == spec_reduce(counter.runner_up_tally(c) as int, counter.spec_total() as int));
        }
        assert forall|c: Camel|
            #![auto]
            (result.loser.spec_lookup(c).num(), result.loser.spec_lookup(c).den()) == spec_reduce(
                count_loser(leaf_views, c) as int,
                total,
            ) by {
            assert((result.loser.spec_lookup(c).num(), result.loser.spec_lookup(c).den())
                == spec_reduce(counter.loser_tally(c) as int, counter.spec_total() as int));
        }
    }
    result
}

} // verus!
