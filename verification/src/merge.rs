//! What merging several sequences into one has to keep: the elements of all
//! of them, counted as often as they occur. The merge itself is described
//! step by step, so that its result is fixed for sources in any order.

use crate::seqs::lemma_permutation_member;
use crate::seqs::permutation;
use crate::sift::heapified;
use crate::sift::with_new;
use crate::sift::without_root;
use vstd::multiset::Multiset;
use vstd::prelude::*;

verus! {

/// The number of elements that the sequences hold together.
pub open spec fn total_len(sources: Seq<Seq<i64>>) -> nat
    decreases sources.len(),
{
    if sources.len() == 0 {
        0
    } else {
        total_len(sources.drop_last()) + sources.last().len()
    }
}

/// The elements that the sequences hold together.
pub open spec fn all_items(sources: Seq<Seq<i64>>) -> Multiset<i64>
    decreases sources.len(),
{
    if sources.len() == 0 {
        Multiset::empty()
    } else {
        all_items(sources.drop_last()).add(sources.last().to_multiset())
    }
}

/// The elements that have been read when `read[i]` elements have been taken
/// from the front of `sources[i]`.
pub open spec fn items_read(sources: Seq<Seq<i64>>, read: Seq<usize>) -> Multiset<i64>
    decreases read.len(),
{
    if read.len() == 0 {
        Multiset::empty()
    } else {
        items_read(sources, read.drop_last()).add(
            sources[read.len() - 1].take(read.last() as int).to_multiset(),
        )
    }
}

/// The key of an entry of the merge's heap.
pub open spec fn key_of(entry: (i64, usize)) -> i64 {
    entry.0
}

/// The keys of the entries, in their order.
pub open spec fn keys(entries: Seq<(i64, usize)>) -> Seq<i64> {
    entries.map_values(|e: (i64, usize)| key_of(e))
}

/// Rearranged sequences stay rearrangements of each other when the same
/// function is applied to every element.
pub proof fn lemma_permutation_map<A, B>(a: Seq<A>, b: Seq<A>, f: spec_fn(A) -> B)
    requires
        permutation(a, b),
    ensures
        permutation(a.map_values(f), b.map_values(f)),
    decreases a.len(),
{
    broadcast use vstd::seq_lib::to_multiset_remove;
    broadcast use vstd::seq_lib::to_multiset_insert;
    broadcast use vstd::seq_lib::to_multiset_build;

    a.to_multiset_ensures();
    b.to_multiset_ensures();
    if a.len() == 0 {
        assert(a.map_values(f) =~= b.map_values(f));
    } else {
        let x = a.last();
        let a1 = a.drop_last();
        lemma_permutation_member(a, b, a.len() - 1);
        let k = choose|k: int| 0 <= k < b.len() && b[k] == x;
        let b1 = b.remove(k);
        assert(a1 =~= a.remove(a.len() - 1));
        assert(a1.to_multiset() == a.to_multiset().remove(x));
        assert(b1.to_multiset() == b.to_multiset().remove(x));
        lemma_permutation_map(a1, b1, f);
        assert(a.map_values(f) =~= a1.map_values(f).push(f(x)));
        assert(b.map_values(f) =~= b1.map_values(f).insert(k, f(x)));
    }
}

/// Taking one more element from the front of `sources[i]` adds that element
/// to the elements read.
pub proof fn lemma_read_one_more(sources: Seq<Seq<i64>>, read: Seq<usize>, i: int)
    requires
        0 <= i < read.len() <= sources.len(),
        read[i] < sources[i].len(),
        read[i] < usize::MAX,
    ensures
        items_read(sources, read.update(i, (read[i] + 1) as usize)) == items_read(
            sources,
            read,
        ).insert(sources[i][read[i] as int]),
    decreases read.len(),
{
    broadcast use vstd::seq_lib::to_multiset_build;
    broadcast use vstd::multiset::group_multiset_axioms;

    let next = read.update(i, (read[i] + 1) as usize);
    let n = read.len() - 1;
    if i == n {
        assert(next.drop_last() =~= read.drop_last());
        assert(sources[i].take(read[i] + 1) =~= sources[i].take(read[i] as int).push(
            sources[i][read[i] as int],
        ));
        assert(items_read(sources, next) =~= items_read(sources, read).insert(
            sources[i][read[i] as int],
        ));
    } else {
        lemma_read_one_more(sources, read.drop_last(), i);
        assert(next.drop_last() =~= read.drop_last().update(i, (read[i] + 1) as usize));
        assert(items_read(sources, next) =~= items_read(sources, read).insert(
            sources[i][read[i] as int],
        ));
    }
}

/// When every sequence has been read to its end, all elements are read.
pub proof fn lemma_read_all(sources: Seq<Seq<i64>>, read: Seq<usize>)
    requires
        read.len() <= sources.len(),
        forall|i: int| 0 <= i < read.len() ==> read[i] == sources[i].len(),
    ensures
        items_read(sources, read) == all_items(sources.take(read.len() as int)),
    decreases read.len(),
{
    if read.len() > 0 {
        let n = read.len() - 1;
        lemma_read_all(sources, read.drop_last());
        assert(sources.take(read.len() as int).drop_last() =~= sources.take(n));
        assert(sources[n].take(read.last() as int) =~= sources[n]);
        assert(sources.take(read.len() as int).last() == sources[n]);
    } else {
        assert(sources.take(0).len() == 0);
    }
}

/// The elements of the sequences together are as many as their lengths add
/// up to.
pub proof fn lemma_all_items_len(sources: Seq<Seq<i64>>)
    ensures
        all_items(sources).len() == total_len(sources),
    decreases sources.len(),
{
    broadcast use vstd::multiset::group_multiset_axioms;

    if sources.len() > 0 {
        lemma_all_items_len(sources.drop_last());
        sources.last().to_multiset_ensures();
    }
}

/// No more elements can be read than the sequences hold.
pub proof fn lemma_read_bound(sources: Seq<Seq<i64>>, read: Seq<usize>)
    requires
        read.len() <= sources.len(),
        forall|i: int| 0 <= i < read.len() ==> read[i] <= sources[i].len(),
    ensures
        items_read(sources, read).len() <= total_len(sources.take(read.len() as int)),
    decreases read.len(),
{
    broadcast use vstd::multiset::group_multiset_axioms;

    if read.len() > 0 {
        let n = read.len() - 1;
        lemma_read_bound(sources, read.drop_last());
        assert(sources.take(read.len() as int).drop_last() =~= sources.take(n));
        assert(sources.take(read.len() as int).last() == sources[n]);
        sources[n].take(read.last() as int).to_multiset_ensures();
    } else {
        assert(sources.take(0).len() == 0);
    }
}

/// `s` is in ascending order.
pub open spec fn sorted(s: Seq<i64>) -> bool {
    forall|a: int, b: int| 0 <= a <= b < s.len() ==> s[a] <= s[b]
}

/// Each of the sequences is in ascending order.
pub open spec fn all_sorted(sources: Seq<Seq<i64>>) -> bool {
    forall|i: int| 0 <= i < sources.len() ==> sorted(#[trigger] sources[i])
}

/// The state of a merge: `read[i]` elements have been taken from the front
/// of `sources[i]`, and each of them is either the key of one of `entries`
/// or in `out`. Where the sources are ascending, `out` is ascending, and no
/// element of it is larger than a key of an entry or an element still to be
/// read; and no key of an entry is larger than what its source still holds.
pub open spec fn merging(
    sources: Seq<Seq<i64>>,
    read: Seq<usize>,
    entries: Seq<(i64, usize)>,
    out: Seq<i64>,
) -> bool {
    &&& read.len() == sources.len()
    &&& forall|i: int| 0 <= i < read.len() ==> (#[trigger] read[i]) <= sources[i].len()
    &&& forall|j: int| 0 <= j < entries.len() ==> (#[trigger] entries[j]).1 < read.len()
    &&& out.to_multiset().add(keys(entries).to_multiset()) == items_read(sources, read)
    &&& all_sorted(sources) ==> {
        &&& sorted(out)
        &&& forall|j: int, p: int|
            0 <= j < entries.len() && read[entries[j].1 as int] <= p < sources[entries[j].1 as int].len()
                ==> (#[trigger] entries[j]).0 <= #[trigger] sources[entries[j].1 as int][p]
        &&& forall|m: int, j: int|
            0 <= m < out.len() && 0 <= j < entries.len() ==> #[trigger] out[m] <= (
            #[trigger] entries[j]).0
        &&& forall|m: int, i: int, p: int|
            0 <= m < out.len() && 0 <= i < sources.len() && read[i] <= p < sources[i].len()
                ==> #[trigger] out[m] <= #[trigger] sources[i][p]
    }
}

/// Every source that has elements still to be read, other than the source
/// `but`, has an entry.
pub open spec fn fed(
    sources: Seq<Seq<i64>>,
    read: Seq<usize>,
    entries: Seq<(i64, usize)>,
    but: int,
) -> bool {
    forall|i: int|
        0 <= i < read.len() && i != but && (#[trigger] read[i]) < sources[i].len() ==> exists|
            j: int,
        |
            0 <= j < entries.len() && (#[trigger] entries[j]).1 == i
}

/// The merge goes on when the smallest entry leaves the entries and its key
/// is added to the output.
pub proof fn lemma_entry_taken(
    sources: Seq<Seq<i64>>,
    read: Seq<usize>,
    entries: Seq<(i64, usize)>,
    out: Seq<i64>,
    rest: Seq<(i64, usize)>,
)
    requires
        merging(sources, read, entries, out),
        fed(sources, read, entries, -1),
        entries.len() > 0,
        rest.to_multiset() == entries.to_multiset().remove(entries[0]),
        forall|j: int| 0 <= j < rest.len() ==> entries[0].0 <= (#[trigger] rest[j]).0,
    ensures
        merging(sources, read, rest, out.push(entries[0].0)),
        fed(sources, read, rest, entries[0].1 as int),
{
    broadcast use vstd::seq_lib::to_multiset_build;
    broadcast use vstd::multiset::group_multiset_axioms;

    let root = entries[0];
    let grown = out.push(root.0);
    entries.to_multiset_ensures();
    rest.to_multiset_ensures();
    assert(entries.contains(root));
    // every entry that is left was an entry before
    assert forall|j: int| 0 <= j < rest.len() implies entries.contains(#[trigger] rest[j]) by {
        assert(rest.contains(rest[j]));
        assert(rest.to_multiset().count(rest[j]) > 0);
        assert(entries.to_multiset().count(rest[j]) > 0);
    }
    assert forall|j: int| 0 <= j < rest.len() implies (#[trigger] rest[j]).1 < read.len() by {
        assert(entries.contains(rest[j]));
        let k = choose|k: int| 0 <= k < entries.len() && entries[k] == rest[j];
        assert(entries[k].1 < read.len());
    }
    // the keys
    assert(rest.push(root).to_multiset() =~= entries.to_multiset());
    lemma_permutation_map(rest.push(root), entries, |e: (i64, usize)| key_of(e));
    assert(keys(rest.push(root)) =~= keys(rest).push(root.0));
    assert(grown.to_multiset().add(keys(rest).to_multiset()) =~= out.to_multiset().add(
        keys(entries).to_multiset(),
    ));
    // every fed source but that of the root keeps its entry
    assert forall|i: int|
        0 <= i < read.len() && i != root.1 as int && (#[trigger] read[i])
            < sources[i].len() implies exists|j: int|
        0 <= j < rest.len() && (#[trigger] rest[j]).1 == i by {
        let k = choose|k: int| 0 <= k < entries.len() && (#[trigger] entries[k]).1 == i;
        assert(entries[k] != root);
        assert(entries.contains(entries[k]));
        assert(entries.to_multiset().count(entries[k]) > 0);
        assert(rest.to_multiset().count(entries[k]) > 0);
        assert(rest.contains(entries[k]));
        let j = choose|j: int| 0 <= j < rest.len() && rest[j] == entries[k];
        assert(rest[j].1 == i);
    }
    if all_sorted(sources) {
        assert forall|a: int, b: int| 0 <= a <= b < grown.len() implies grown[a] <= grown[b] by {
            if b == out.len() && a < out.len() {
                assert(out[a] <= entries[0].0);
            }
        }
        assert forall|j: int, p: int|
            0 <= j < rest.len() && read[rest[j].1 as int] <= p < sources[rest[j].1 as int].len()
                implies (#[trigger] rest[j]).0 <= #[trigger] sources[rest[j].1 as int][p] by {
            let k = choose|k: int| 0 <= k < entries.len() && entries[k] == rest[j];
            assert(entries[k].0 <= sources[entries[k].1 as int][p]);
        }
        assert forall|m: int, j: int| 0 <= m < grown.len() && 0 <= j < rest.len() implies #[trigger] grown[m]
            <= (#[trigger] rest[j]).0 by {
            if m < out.len() {
                let k = choose|k: int| 0 <= k < entries.len() && entries[k] == rest[j];
                assert(out[m] <= entries[k].0);
            }
        }
        assert forall|m: int, i: int, p: int|
            0 <= m < grown.len() && 0 <= i < sources.len() && read[i] <= p
                < sources[i].len() implies #[trigger] grown[m] <= #[trigger] sources[i][p] by {
            if m < out.len() {
                assert(out[m] <= sources[i][p]);
            } else if i == root.1 as int {
                assert(entries[0].0 <= sources[entries[0].1 as int][p]);
            } else {
                let k = choose|k: int| 0 <= k < entries.len() && (#[trigger] entries[k]).1 == i;
                assert(entries[k] != root);
                assert(entries.contains(entries[k]));
                assert(entries.to_multiset().count(entries[k]) > 0);
                assert(rest.to_multiset().count(entries[k]) > 0);
                assert(rest.contains(entries[k]));
                let j = choose|j: int| 0 <= j < rest.len() && rest[j] == entries[k];
                assert(root.0 <= rest[j].0);
                assert(entries[k].0 <= sources[entries[k].1 as int][p]);
            }
        }
    }
}

/// The merge goes on when the next element of the source `i` becomes an
/// entry.
pub proof fn lemma_entry_added(
    sources: Seq<Seq<i64>>,
    read: Seq<usize>,
    entries: Seq<(i64, usize)>,
    out: Seq<i64>,
    more: Seq<(i64, usize)>,
    i: usize,
)
    requires
        merging(sources, read, entries, out),
        fed(sources, read, entries, i as int),
        i < read.len(),
        read[i as int] < sources[i as int].len(),
        read[i as int] < usize::MAX,
        more.to_multiset() == entries.to_multiset().insert((sources[i as int][read[i as int] as int], i)),
    ensures
        merging(sources, read.update(i as int, (read[i as int] + 1) as usize), more, out),
        fed(sources, read.update(i as int, (read[i as int] + 1) as usize), more, -1),
{
    broadcast use vstd::seq_lib::to_multiset_build;
    broadcast use vstd::multiset::group_multiset_axioms;

    let x = sources[i as int][read[i as int] as int];
    let new = (x, i);
    let next = read.update(i as int, (read[i as int] + 1) as usize);
    entries.to_multiset_ensures();
    more.to_multiset_ensures();
    // an entry is the new one or was one before
    assert forall|j: int| 0 <= j < more.len() implies (#[trigger] more[j]) == new
        || entries.contains(more[j]) by {
        assert(more.contains(more[j]));
        assert(more.to_multiset().count(more[j]) > 0);
        if more[j] != new {
            assert(entries.to_multiset().count(more[j]) > 0);
        }
    }
    assert forall|j: int| 0 <= j < more.len() implies (#[trigger] more[j]).1 < next.len() by {
        if more[j] != new {
            let k = choose|k: int| 0 <= k < entries.len() && entries[k] == more[j];
            assert(entries[k].1 < read.len());
        }
    }
    assert(entries.push(new).to_multiset() =~= more.to_multiset());
    lemma_permutation_map(more, entries.push(new), |e: (i64, usize)| key_of(e));
    assert(keys(entries.push(new)) =~= keys(entries).push(x));
    lemma_read_one_more(sources, read, i as int);
    assert(out.to_multiset().add(keys(more).to_multiset()) =~= items_read(sources, next));
    assert(more.to_multiset().count(new) > 0);
    assert(more.contains(new));
    let at = choose|j: int| 0 <= j < more.len() && more[j] == new;
    assert forall|s: int|
        0 <= s < next.len() && s != -1 && (#[trigger] next[s]) < sources[s].len() implies exists|
        j: int,
    |
        0 <= j < more.len() && (#[trigger] more[j]).1 == s by {
        if s == i {
            assert(more[at].1 == s);
        } else {
            assert(read[s] < sources[s].len());
            let k = choose|k: int| 0 <= k < entries.len() && (#[trigger] entries[k]).1 == s;
            assert(entries.contains(entries[k]));
            assert(entries.to_multiset().count(entries[k]) > 0);
            assert(more.to_multiset().count(entries[k]) > 0);
            assert(more.contains(entries[k]));
            let j = choose|j: int| 0 <= j < more.len() && more[j] == entries[k];
            assert(more[j].1 == s);
        }
    }
    if all_sorted(sources) {
        assert(sorted(sources[i as int]));
        assert forall|j: int, p: int|
            0 <= j < more.len() && next[more[j].1 as int] <= p < sources[more[j].1 as int].len()
                implies (#[trigger] more[j]).0 <= #[trigger] sources[more[j].1 as int][p] by {
            if more[j] == new {
            } else {
                let k = choose|k: int| 0 <= k < entries.len() && entries[k] == more[j];
                assert(entries[k].0 <= sources[entries[k].1 as int][p]);
            }
        }
        assert forall|m: int, j: int| 0 <= m < out.len() && 0 <= j < more.len() implies #[trigger] out[m]
            <= (#[trigger] more[j]).0 by {
            if more[j] == new {
                assert(out[m] <= sources[i as int][read[i as int] as int]);
            } else {
                let k = choose|k: int| 0 <= k < entries.len() && entries[k] == more[j];
                assert(out[m] <= entries[k].0);
            }
        }
        assert forall|m: int, s: int, p: int|
            0 <= m < out.len() && 0 <= s < sources.len() && next[s] <= p
                < sources[s].len() implies #[trigger] out[m] <= #[trigger] sources[s][p] by {
            assert(out[m] <= sources[s][p]);
        }
    }
}

/// When no entry is left, the output holds all elements of the sources.
pub proof fn lemma_merged(sources: Seq<Seq<i64>>, read: Seq<usize>, out: Seq<i64>)
    requires
        merging(sources, read, Seq::<(i64, usize)>::empty(), out),
        fed(sources, read, Seq::<(i64, usize)>::empty(), -1),
    ensures
        out.to_multiset() == all_items(sources),
        out.len() == total_len(sources),
        all_sorted(sources) ==> sorted(out),
{
    broadcast use vstd::multiset::group_multiset_axioms;

    broadcast use vstd::seq_lib::to_multiset_len;

    let none = Seq::<(i64, usize)>::empty();
    assert(keys(none) =~= Seq::<i64>::empty());
    assert(keys(none).to_multiset().len() == 0);
    assert(keys(none).to_multiset() =~= Multiset::<i64>::empty());
    assert(out.to_multiset().add(Multiset::<i64>::empty()) =~= out.to_multiset());
    assert forall|i: int| 0 <= i < read.len() implies read[i] == sources[i].len() by {
        if read[i] < sources[i].len() {
            let j = choose|j: int| 0 <= j < none.len() && (#[trigger] none[j]).1 == i;
        }
    }
    lemma_read_all(sources, read);
    assert(sources.take(read.len() as int) =~= sources);
    lemma_all_items_len(sources);
    out.to_multiset_ensures();
}

/// The entries that a merge begins with, from the first `count` sources:
/// the first element of each source that has one, with the source's number,
/// in the order of the sources.
pub open spec fn first_entries(sources: Seq<Seq<i64>>, count: int) -> Seq<(i64, usize)>
    decreases count,
{
    if count <= 0 || count > sources.len() {
        Seq::empty()
    } else if sources[count - 1].len() > 0 {
        first_entries(sources, count - 1).push((sources[count - 1][0], (count - 1) as usize))
    } else {
        first_entries(sources, count - 1)
    }
}

/// How many elements of each source a merge has read when it begins: one
/// of each source that has any.
pub open spec fn first_reads(sources: Seq<Seq<i64>>) -> Seq<usize> {
    Seq::new(
        sources.len(),
        |i: int|
            if sources[i].len() > 0 {
                1usize
            } else {
                0usize
            },
    )
}

/// What a merge still puts out, at most `left` elements: the key of the
/// root of `entries` leaves first, the next element of its source takes its
/// place in the heap if there is one, and so on until no entry is left.
pub open spec fn drained(
    sources: Seq<Seq<i64>>,
    read: Seq<usize>,
    entries: Seq<(i64, usize)>,
    left: nat,
) -> Seq<i64>
    decreases left,
{
    if entries.len() == 0 || left == 0 {
        Seq::empty()
    } else {
        let key = entries[0].0;
        let index = entries[0].1 as int;
        let rest = without_root(false, entries);
        if index < read.len() && index < sources.len() && read[index] < sources[index].len() {
            Seq::empty().push(key) + drained(
                sources,
                read.update(index, (read[index] + 1) as usize),
                with_new(false, rest, (sources[index][read[index] as int], index as usize)),
                (left - 1) as nat,
            )
        } else {
            Seq::empty().push(key) + drained(sources, read, rest, (left - 1) as nat)
        }
    }
}

/// The result of merging `sources` through a min-heap of entries, whether
/// or not the sources are in order.
pub open spec fn merged_through_heap(sources: Seq<Seq<i64>>) -> Seq<i64> {
    drained(
        sources,
        first_reads(sources),
        heapified(false, first_entries(sources, sources.len() as int)),
        total_len(sources),
    )
}

/// The first element of every source that has one is a seed, and nothing
/// else is; `read` says so for the first `read.len()` sources.
pub open spec fn seeded(sources: Seq<Seq<i64>>, read: Seq<usize>, seeds: Seq<(i64, usize)>) -> bool {
    &&& read.len() <= sources.len()
    &&& forall|i: int|
        0 <= i < read.len() ==> (#[trigger] read[i]) == (if sources[i].len() > 0 {
            1usize
        } else {
            0usize
        })
    &&& forall|j: int|
        0 <= j < seeds.len() ==> {
            &&& (#[trigger] seeds[j]).1 < read.len()
            &&& sources[seeds[j].1 as int].len() > 0
            &&& seeds[j].0 == sources[seeds[j].1 as int][0]
        }
    &&& forall|i: int|
        0 <= i < read.len() && sources[i].len() > 0 ==> exists|j: int|
            0 <= j < seeds.len() && (#[trigger] seeds[j]).1 == i
    &&& keys(seeds).to_multiset() == items_read(sources, read)
}

/// Before the first source there is no seed.
pub proof fn lemma_seeded_first(sources: Seq<Seq<i64>>)
    ensures
        seeded(sources, Seq::<usize>::empty(), Seq::<(i64, usize)>::empty()),
{
    broadcast use vstd::seq_lib::to_multiset_len;
    broadcast use vstd::multiset::group_multiset_axioms;

    let none = Seq::<(i64, usize)>::empty();
    assert(keys(none) =~= Seq::<i64>::empty());
    assert(keys(none).to_multiset().len() == 0);
    assert(keys(none).to_multiset() =~= Multiset::<i64>::empty());
}

/// Seeding goes on with the next source.
pub proof fn lemma_seeded_next(sources: Seq<Seq<i64>>, read: Seq<usize>, seeds: Seq<(i64, usize)>)
    requires
        seeded(sources, read, seeds),
        read.len() < sources.len(),
        read.len() < usize::MAX,
    ensures
        sources[read.len() as int].len() == 0 ==> seeded(sources, read.push(0), seeds),
        sources[read.len() as int].len() > 0 ==> seeded(
            sources,
            read.push(1),
            seeds.push((sources[read.len() as int][0], read.len() as usize)),
        ),
{
    broadcast use vstd::seq_lib::to_multiset_build;
    broadcast use vstd::seq_lib::to_multiset_len;
    broadcast use vstd::multiset::group_multiset_axioms;

    let n = read.len() as int;
    let source = sources[n];
    if source.len() == 0 {
        let next = read.push(0);
        assert(next.drop_last() =~= read);
        assert(source.take(0).to_multiset().len() == 0);
        assert(items_read(sources, next) =~= items_read(sources, read));
        assert forall|i: int| 0 <= i < next.len() && sources[i].len() > 0 implies exists|j: int|
            0 <= j < seeds.len() && (#[trigger] seeds[j]).1 == i by {
            assert(read[i] == 1);
        }
    } else {
        let next = read.push(1);
        let new = (source[0], n as usize);
        let more = seeds.push(new);
        assert(next.drop_last() =~= read);
        assert(source.take(1) =~= Seq::<i64>::empty().push(source[0]));
        assert(Seq::<i64>::empty().to_multiset().len() == 0);
        assert(source.take(1).to_multiset() =~= Multiset::<i64>::empty().insert(source[0]));
        assert(keys(more) =~= keys(seeds).push(source[0]));
        assert(items_read(sources, next) =~= items_read(sources, read).insert(source[0]));
        assert forall|i: int| 0 <= i < next.len() && sources[i].len() > 0 implies exists|j: int|
            0 <= j < more.len() && (#[trigger] more[j]).1 == i by {
            if i == n {
                assert(more[seeds.len() as int].1 == i);
            } else {
                assert(read[i] == 1);
                let j = choose|j: int| 0 <= j < seeds.len() && (#[trigger] seeds[j]).1 == i;
                assert(more[j].1 == i);
            }
        }
        assert forall|j: int| 0 <= j < more.len() implies {
            &&& (#[trigger] more[j]).1 < next.len()
            &&& sources[more[j].1 as int].len() > 0
            &&& more[j].0 == sources[more[j].1 as int][0]
        } by {
            if j < seeds.len() {
                assert(more[j] == seeds[j]);
            }
        }
    }
}

/// A merge begins with the seeds of all sources as its entries, in any
/// arrangement, and nothing in its output.
pub proof fn lemma_merge_begins(
    sources: Seq<Seq<i64>>,
    read: Seq<usize>,
    seeds: Seq<(i64, usize)>,
    entries: Seq<(i64, usize)>,
)
    requires
        seeded(sources, read, seeds),
        read.len() == sources.len(),
        permutation(entries, seeds),
    ensures
        merging(sources, read, entries, Seq::<i64>::empty()),
        fed(sources, read, entries, -1),
{
    broadcast use vstd::seq_lib::to_multiset_len;
    broadcast use vstd::multiset::group_multiset_axioms;

    let out = Seq::<i64>::empty();
    entries.to_multiset_ensures();
    seeds.to_multiset_ensures();
    lemma_permutation_map(entries, seeds, |e: (i64, usize)| key_of(e));
    assert(out.to_multiset().len() == 0);
    assert(out.to_multiset().add(keys(entries).to_multiset()) =~= keys(entries).to_multiset());
    assert forall|j: int| 0 <= j < entries.len() implies seeds.contains(#[trigger] entries[j]) by {
        lemma_permutation_member(entries, seeds, j);
    }
    assert forall|j: int| 0 <= j < entries.len() implies (#[trigger] entries[j]).1
        < read.len() by {
        let k = choose|k: int| 0 <= k < seeds.len() && seeds[k] == entries[j];
        assert(seeds[k].1 < read.len());
    }
    assert forall|i: int|
        0 <= i < read.len() && i != -1 && (#[trigger] read[i]) < sources[i].len() implies exists|
        j: int,
    |
        0 <= j < entries.len() && (#[trigger] entries[j]).1 == i by {
        let k = choose|k: int| 0 <= k < seeds.len() && (#[trigger] seeds[k]).1 == i;
        lemma_permutation_member(seeds, entries, k);
        let j = choose|j: int| 0 <= j < entries.len() && entries[j] == seeds[k];
        assert(entries[j].1 == i);
    }
    if all_sorted(sources) {
        assert forall|j: int, p: int|
            0 <= j < entries.len() && read[entries[j].1 as int] <= p
                < sources[entries[j].1 as int].len() implies (#[trigger] entries[j]).0
            <= #[trigger] sources[entries[j].1 as int][p] by {
            let k = choose|k: int| 0 <= k < seeds.len() && seeds[k] == entries[j];
            assert(seeds[k].0 == sources[seeds[k].1 as int][0]);
            assert(sorted(sources[seeds[k].1 as int]));
        }
    }
}

} // verus!
