//! Names in lexicographic order: the order in which libraries are looked up
//! and in which packages are listed.
//!
//! Two names are compared character by character, a character with a lower
//! code point first; a name comes before every name that it is a proper
//! prefix of. This is the order that `str` has in the standard library.

use vstd::prelude::*;
use vstd::std_specs::iter::IteratorSpec;

verus! {

/// `a` comes before `b`: at the first place where they differ `a` has the
/// lower character, or `a` ends there and `b` does not.
pub open spec fn precedes(a: Seq<char>, b: Seq<char>) -> bool {
    exists|k: int| differ_at(a, b, k)
}

/// `a` and `b` agree before place `k`, and there `a` ends or has the lower
/// character.
pub open spec fn differ_at(a: Seq<char>, b: Seq<char>, k: int) -> bool {
    &&& 0 <= k <= a.len()
    &&& k < b.len()
    &&& a.take(k) == b.take(k)
    &&& k < a.len() ==> a[k] < b[k]
}

/// Each name comes before all that follow it: the names are sorted and none
/// occurs twice.
pub open spec fn ascending(names: Seq<Seq<char>>) -> bool {
    forall|i: int, j: int| 0 <= i < j < names.len() ==> precedes(names[i], names[j])
}

/// How one name stands to another.
#[derive(Debug, Clone, Copy, PartialEq, Eq)]
pub enum Rank {
    Before,
    Same,
    After,
}

/// Two texts that agree before place `k` agree at every place before it.
proof fn lemma_agree(a: Seq<char>, b: Seq<char>, k: int)
    requires
        0 <= k <= a.len(),
        k <= b.len(),
        a.take(k) == b.take(k),
    ensures
        forall|i: int| 0 <= i < k ==> a[i] == b[i],
{
    assert forall|i: int| 0 <= i < k implies a[i] == b[i] by {
        assert(a.take(k)[i] == a[i]);
        assert(b.take(k)[i] == b[i]);
    }
}

/// No name comes before itself.
pub proof fn lemma_precedes_irreflexive(a: Seq<char>)
    ensures
        !precedes(a, a),
{
}

/// The order is transitive.
pub proof fn lemma_precedes_transitive(a: Seq<char>, b: Seq<char>, c: Seq<char>)
    requires
        precedes(a, b),
        precedes(b, c),
    ensures
        precedes(a, c),
{
    let i = choose|i: int| differ_at(a, b, i);
    let j = choose|j: int| differ_at(b, c, j);
    let k = if i <= j {
        i
    } else {
        j
    };
    lemma_agree(a, b, i);
    lemma_agree(b, c, j);
    assert(a.take(k) =~= c.take(k));
    assert(differ_at(a, c, k));
}

/// Of two names at most one comes before the other.
pub proof fn lemma_precedes_asymmetric(a: Seq<char>, b: Seq<char>)
    requires
        precedes(a, b),
    ensures
        !precedes(b, a),
        a != b,
{
    if precedes(b, a) {
        lemma_precedes_transitive(a, b, a);
    }
}

/// Of two names that differ, one comes before the other.
pub proof fn lemma_precedes_total(a: Seq<char>, b: Seq<char>)
    ensures
        a == b || precedes(a, b) || precedes(b, a),
{
    assert(a.take(0) =~= b.take(0));
    lemma_total_from(a, b, 0);
}

proof fn lemma_total_from(a: Seq<char>, b: Seq<char>, k: int)
    requires
        0 <= k <= a.len(),
        k <= b.len(),
        a.take(k) == b.take(k),
    ensures
        a == b || precedes(a, b) || precedes(b, a),
    decreases a.len() - k,
{
    if k == a.len() && k == b.len() {
        assert(a.take(k) =~= a);
        assert(b.take(k) =~= b);
    } else if k == a.len() {
        assert(differ_at(a, b, k));
    } else if k == b.len() {
        assert(differ_at(b, a, k));
    } else if a[k] == b[k] {
        assert(a.take(k + 1) =~= a.take(k).push(a[k]));
        assert(b.take(k + 1) =~= b.take(k).push(b[k]));
        lemma_total_from(a, b, k + 1);
    } else if a[k] < b[k] {
        assert(differ_at(a, b, k));
    } else {
        assert(differ_at(b, a, k));
    }
}

/// Tells how `a` stands to `b` in the order of names.
pub fn rank(a: &str, b: &str) -> (r: Rank)
    ensures
        r is Before <==> precedes(a@, b@),
        r is Same <==> a@ == b@,
        r is After <==> precedes(b@, a@),
{
    let mut xs = a.chars();
    let mut ys = b.chars();
    let ghost mut k: int = 0;
    proof {
        assert(a@.skip(0) =~= a@);
        assert(b@.skip(0) =~= b@);
    }
    loop
        invariant
            0 <= k <= a@.len(),
            k <= b@.len(),
            a@.take(k) == b@.take(k),
            xs.remaining() == a@.skip(k),
            ys.remaining() == b@.skip(k),
        decreases a@.len() - k,
    {
        let x = xs.next();
        let y = ys.next();
        proof {
            if k < a@.len() {
                assert(a@.skip(k).drop_first() =~= a@.skip(k + 1));
            }
            if k < b@.len() {
                assert(b@.skip(k).drop_first() =~= b@.skip(k + 1));
            }
        }
        match (x, y) {
            (None, None) => {
                proof {
                    assert(a@.take(k) =~= a@);
                    assert(b@.take(k) =~= b@);
                }
                return Rank::Same;
            },
            (None, Some(_)) => {
                proof {
                    assert(differ_at(a@, b@, k));
                    lemma_precedes_asymmetric(a@, b@);
                }
                return Rank::Before;
            },
            (Some(_), None) => {
                proof {
                    assert(differ_at(b@, a@, k));
                    lemma_precedes_asymmetric(b@, a@);
                }
                return Rank::After;
            },
            (Some(c), Some(d)) => {
                assert(c == a@.skip(k)[0] && d == b@.skip(k)[0]);
                assert(c == a@[k] && d == b@[k]);
                if c < d {
                    proof {
                        assert(differ_at(a@, b@, k));
                        lemma_precedes_asymmetric(a@, b@);
                    }
                    return Rank::Before;
                } else if d < c {
                    proof {
                        assert(differ_at(b@, a@, k));
                        lemma_precedes_asymmetric(b@, a@);
                    }
                    return Rank::After;
                }
                proof {
                    assert(a@.take(k + 1) =~= a@.take(k).push(c));
                    assert(b@.take(k + 1) =~= b@.take(k).push(d));
                    k = k + 1;
                }
            },
        }
    }
}

/// Where `name` belongs in an ascending list, and whether it stands there
/// already.
pub fn position(list: &Vec<String>, name: &str) -> (r: (usize, bool))
    requires
        ascending(list.deep_view()),
    ensures
        r.0 <= list.len(),
        forall|i: int| 0 <= i < r.0 ==> precedes(#[trigger] list.deep_view()[i], name@),
        r.1 ==> r.0 < list.len() && list.deep_view()[r.0 as int] == name@,
        !r.1 ==> forall|i: int|
            r.0 <= i < list.len() ==> precedes(name@, #[trigger] list.deep_view()[i]),
{
    let ghost all = list.deep_view();
    let mut p: usize = 0;
    while p < list.len()
        invariant
            p <= list.len(),
            all == list.deep_view(),
            ascending(all),
            forall|i: int| 0 <= i < p ==> precedes(#[trigger] all[i], name@),
        decreases list.len() - p,
    {
        match rank(list[p].as_str(), name) {
            Rank::Before => {
                p += 1;
            },
            Rank::Same => {
                return (p, true);
            },
            Rank::After => {
                proof {
                    assert forall|i: int| p <= i < list.len() implies precedes(
                        name@,
                        #[trigger] all[i],
                    ) by {
                        if p < i {
                            assert(precedes(all[p as int], all[i]));
                            lemma_precedes_transitive(name@, all[p as int], all[i]);
                        }
                    }
                }
                return (p, false);
            },
        }
    }
    (p, false)
}

/// Tells whether `name` stands in an ascending list.
pub fn contains(list: &Vec<String>, name: &str) -> (b: bool)
    requires
        ascending(list.deep_view()),
    ensures
        b == list.deep_view().to_set().contains(name@),
{
    let (p, found) = position(list, name);
    proof {
        let all = list.deep_view();
        if found {
            assert(all.contains(all[p as int]));
        } else if all.contains(name@) {
            let i = choose|i: int| 0 <= i < all.len() && all[i] == name@;
            if i < p {
                assert(precedes(all[i], name@));
            } else {
                assert(precedes(name@, all[i]));
            }
            lemma_precedes_irreflexive(name@);
        }
    }
    found
}

/// Puts `name` into an ascending list at its place, unless it stands there
/// already.
pub fn insert_sorted(list: &mut Vec<String>, name: String)
    requires
        ascending(old(list).deep_view()),
    ensures
        ascending(final(list).deep_view()),
        final(list).deep_view().to_set() == old(list).deep_view().to_set().insert(name@),
{
    let ghost before = list.deep_view();
    let (p, found) = position(list, name.as_str());
    if found {
        proof {
            assert(before.contains(before[p as int]));
            assert(before.to_set().insert(name@) =~= before.to_set());
        }
    } else {
        list.insert(p, name);
        proof {
            let after = list.deep_view();
            assert(after =~= before.insert(p as int, name@));
            assert forall|i: int, j: int| 0 <= i < j < after.len() implies precedes(
                after[i],
                after[j],
            ) by {
                if j < p {
                    assert(precedes(before[i], before[j]));
                } else if j == p {
                    assert(precedes(before[i], name@));
                } else if i < p {
                    assert(precedes(before[i], before[j - 1]));
                } else if i == p {
                    assert(precedes(name@, before[j - 1]));
                } else {
                    assert(precedes(before[i - 1], before[j - 1]));
                }
            }
            assert forall|x: Seq<char>| after.to_set().contains(x) == before.to_set().insert(
                name@,
            ).contains(x) by {
                if after.contains(x) {
                    let i = choose|i: int| 0 <= i < after.len() && after[i] == x;
                    if i < p {
                        assert(before.contains(before[i]));
                    } else if i > p {
                        assert(before.contains(before[i - 1]));
                    }
                }
                if before.contains(x) {
                    let i = choose|i: int| 0 <= i < before.len() && before[i] == x;
                    if i < p {
                        assert(after[i] == x);
                    } else {
                        assert(after[i + 1] == x);
                    }
                    assert(after.contains(x));
                }
                if x == name@ {
                    assert(after[p as int] == x);
                    assert(after.contains(x));
                }
            }
            assert(after.to_set() =~= before.to_set().insert(name@));
        }
    }
}

/// The names of `names` in ascending order, each of them once.
pub fn sorted_set(names: Vec<String>) -> (sorted: Vec<String>)
    ensures
        ascending(sorted.deep_view()),
        sorted.deep_view().to_set() == names.deep_view().to_set(),
{
    let ghost all = names.deep_view();
    let mut rest = names;
    let mut sorted: Vec<String> = Vec::new();
    proof {
        assert(sorted.deep_view().to_set().union(all.to_set()) =~= all.to_set());
    }
    while rest.len() > 0
        invariant
            ascending(sorted.deep_view()),
            sorted.deep_view().to_set().union(rest.deep_view().to_set()) == all.to_set(),
        decreases rest.len(),
    {
        let ghost waiting = rest.deep_view();
        let ghost done = sorted.deep_view();
        let name = rest.pop().unwrap();
        proof {
            assert(waiting =~= rest.deep_view().push(name@));
            rest.deep_view().lemma_push_to_set_commute(name@);
        }
        insert_sorted(&mut sorted, name);
        proof {
            assert(sorted.deep_view().to_set().union(rest.deep_view().to_set()) =~= done.to_set().union(
                waiting.to_set(),
            ));
        }
    }
    proof {
        assert(sorted.deep_view().to_set().union(rest.deep_view().to_set())
            =~= sorted.deep_view().to_set());
    }
    sorted
}

/// The libraries to look up, in the order in which they are looked up and
/// resolved: those that the linker's report names together with those that
/// the caller adds, each of them once, in ascending order.
pub fn library_queue(detected: Vec<String>, additional: Vec<String>) -> (queue: Vec<String>)
    ensures
        ascending(queue.deep_view()),
        queue.deep_view().to_set() == detected.deep_view().to_set().union(
            additional.deep_view().to_set(),
        ),
{
    let mut all = detected;
    let mut more = additional;
    let ghost first = all.deep_view();
    let ghost second = more.deep_view();
    all.append(&mut more);
    proof {
        assert(all.deep_view() =~= first + second);
        vstd::seq_lib::seq_to_set_distributes_over_add(first, second);
    }
    sorted_set(all)
}

/// Ascending lists with the same names are the same list: the order of an
/// ascending list does not depend on the order in which its names came, nor
/// on how often each of them came.
pub proof fn lemma_ascending_unique(a: Seq<Seq<char>>, b: Seq<Seq<char>>)
    requires
        ascending(a),
        ascending(b),
        a.to_set() == b.to_set(),
    ensures
        a == b,
    decreases a.len(),
{
    if a.len() == 0 {
        if b.len() > 0 {
            assert(b.contains(b[0]));
            assert(a.to_set().contains(b[0]));
        }
        assert(a =~= b);
    } else if b.len() == 0 {
        assert(a.contains(a[0]));
        assert(b.to_set().contains(a[0]));
    } else {
        let x = a.last();
        let y = b.last();
        assert(a.contains(x));
        assert(b.contains(y));
        assert(b.to_set().contains(x));
        assert(a.to_set().contains(y));
        let i = choose|i: int| 0 <= i < a.len() && a[i] == y;
        let j = choose|j: int| 0 <= j < b.len() && b[j] == x;
        if x != y {
            assert(precedes(a[i], a[a.len() - 1]));
            assert(precedes(b[j], b[b.len() - 1]));
            lemma_precedes_asymmetric(x, y);
        }
        let shorter = a.drop_last();
        let other = b.drop_last();
        assert forall|z: Seq<char>| shorter.to_set().contains(z) == other.to_set().contains(z) by {
            lemma_without_last(a, z);
            lemma_without_last(b, z);
        }
        assert(shorter.to_set() =~= other.to_set());
        lemma_ascending_unique(shorter, other);
        assert(a =~= shorter.push(x));
        assert(b =~= other.push(y));
    }
}

/// An ascending list without its last name holds the names of the list but
/// that one, and is ascending.
proof fn lemma_without_last(a: Seq<Seq<char>>, z: Seq<char>)
    requires
        ascending(a),
        a.len() > 0,
    ensures
        ascending(a.drop_last()),
        a.drop_last().to_set().contains(z) == (a.to_set().contains(z) && z != a.last()),
{
    let shorter = a.drop_last();
    assert forall|i: int, j: int| 0 <= i < j < shorter.len() implies precedes(
        shorter[i],
        shorter[j],
    ) by {
        assert(precedes(a[i], a[j]));
    }
    if shorter.contains(z) {
        let i = choose|i: int| 0 <= i < shorter.len() && shorter[i] == z;
        assert(a[i] == z);
        assert(a.contains(z));
        assert(precedes(a[i], a[a.len() - 1]));
        lemma_precedes_asymmetric(z, a.last());
    }
    if a.contains(z) && z != a.last() {
        let i = choose|i: int| 0 <= i < a.len() && a[i] == z;
        assert(shorter[i] == z);
        assert(shorter.contains(z));
    }
}

} // verus!
