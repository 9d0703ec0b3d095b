use crate::ids::str_views;
use vstd::hash_map::StringHashMap;
use vstd::prelude::*;

verus! {

/// Place of an area among all areas, where an area is given as the bits of
/// an IEEE 754 double: a smaller double has a smaller rank. Negative
/// doubles, whose bit patterns grow with their magnitude, count down from
/// `-1`.
pub open spec fn area_rank(bits: u64) -> int {
    if bits < 0x8000_0000_0000_0000 {
        bits as int
    } else {
        0x7fff_ffff_ffff_ffff - bits
    }
}

/// The area on record for a region, or that of nothing (the bits of `0.0`)
/// for a region without a record.
pub open spec fn size_of(sizes: Map<Seq<char>, u64>, id: Seq<char>) -> u64 {
    if sizes.contains_key(id) {
        sizes[id]
    } else {
        0
    }
}

/// The rank of a region's area.
pub open spec fn rank_of(sizes: Map<Seq<char>, u64>, id: Seq<char>) -> int {
    area_rank(size_of(sizes, id))
}

/// The regions whose area has the given rank.
pub open spec fn of_rank(sizes: Map<Seq<char>, u64>, rank: int) -> spec_fn(Seq<char>) -> bool {
    |id: Seq<char>| rank_of(sizes, id) == rank
}

/// Whether no region stands before a smaller one.
pub open spec fn ascending(sizes: Map<Seq<char>, u64>, ids: Seq<Seq<char>>) -> bool {
    forall|i: int, j: int|
        0 <= i <= j < ids.len() ==> rank_of(sizes, #[trigger] ids[i]) <= rank_of(
            sizes,
            #[trigger] ids[j],
        )
}

/// Whether two lists hold, for each rank, the same regions of that rank in
/// the same order.
pub open spec fn same_within_ranks(
    sizes: Map<Seq<char>, u64>,
    a: Seq<Seq<char>>,
    b: Seq<Seq<char>>,
) -> bool {
    forall|rank: int| #[trigger] a.filter(of_rank(sizes, rank)) == b.filter(of_rank(sizes, rank))
}

/// Whether `sorted` is `given` ordered by area, smallest first, with
/// regions of equal area left in the order they had.
pub open spec fn stably_sorted(
    sizes: Map<Seq<char>, u64>,
    sorted: Seq<Seq<char>>,
    given: Seq<Seq<char>>,
) -> bool {
    ascending(sizes, sorted) && same_within_ranks(sizes, sorted, given)
}

/// Ids and areas of a vector of records.
pub open spec fn records_view(records: Seq<(String, u64)>) -> Seq<(Seq<char>, u64)> {
    Seq::new(records.len(), |i: int| (records[i].0@, records[i].1))
}

/// The table that a list of records makes. Of two records for one region
/// the later one counts.
pub open spec fn sizes_map(records: Seq<(Seq<char>, u64)>) -> Map<Seq<char>, u64>
    decreases records.len(),
{
    if records.len() == 0 {
        Map::empty()
    } else {
        sizes_map(records.drop_last()).insert(records.last().0, records.last().1)
    }
}

/// Inserting a slice inserts the id that it spells.
proof fn lemma_str_views_insert(ids: Seq<&str>, at: int, id: &str)
    requires
        0 <= at <= ids.len(),
    ensures
        str_views(ids.insert(at, id)) == str_views(ids).insert(at, id@),
{
    assert(str_views(ids.insert(at, id)) =~= str_views(ids).insert(at, id@));
}

/// A list that holds no region of some rank has nothing to show for that
/// rank.
proof fn lemma_no_such_rank(sizes: Map<Seq<char>, u64>, ids: Seq<Seq<char>>, rank: int)
    requires
        forall|i: int| 0 <= i < ids.len() ==> rank_of(sizes, #[trigger] ids[i]) != rank,
    ensures
        ids.filter(of_rank(sizes, rank)) == Seq::<Seq<char>>::empty(),
    decreases ids.len(),
{
    reveal(Seq::filter);
    if ids.len() > 0 {
        assert(rank_of(sizes, ids[ids.len() - 1]) != rank);
        assert forall|i: int| 0 <= i < ids.drop_last().len() implies rank_of(
            sizes,
            #[trigger] ids.drop_last()[i],
        ) != rank by {
            assert(ids.drop_last()[i] == ids[i]);
        }
        lemma_no_such_rank(sizes, ids.drop_last(), rank);
    }
}

/// Putting a region behind all that are not larger and before all that
/// are larger keeps a list ascending and, rank by rank, appends the region
/// to those of its rank.
proof fn lemma_insert_keeps_sorted(
    sizes: Map<Seq<char>, u64>,
    sorted: Seq<Seq<char>>,
    seen: Seq<Seq<char>>,
    at: int,
    id: Seq<char>,
)
    requires
        stably_sorted(sizes, sorted, seen),
        0 <= at <= sorted.len(),
        forall|i: int| 0 <= i < at ==> rank_of(sizes, #[trigger] sorted[i]) <= rank_of(sizes, id),
        forall|i: int|
            at <= i < sorted.len() ==> rank_of(sizes, #[trigger] sorted[i]) > rank_of(sizes, id),
    ensures
        stably_sorted(sizes, sorted.insert(at, id), seen.push(id)),
{
    let grown = sorted.insert(at, id);
    let head = sorted.subrange(0, at);
    let tail = sorted.subrange(at, sorted.len() as int);
    assert(grown == head.push(id) + tail);
    assert(sorted =~= head + tail);
    assert forall|i: int, j: int| 0 <= i <= j < grown.len() implies rank_of(
        sizes,
        #[trigger] grown[i],
    ) <= rank_of(sizes, #[trigger] grown[j]) by {
        if i < at {
            assert(grown[i] == sorted[i]);
        } else if i > at {
            assert(grown[i] == sorted[i - 1]);
        }
        if j < at {
            assert(grown[j] == sorted[j]);
        } else if j > at {
            assert(grown[j] == sorted[j - 1]);
        }
    }
    assert forall|rank: int| #[trigger]
        grown.filter(of_rank(sizes, rank)) == seen.push(id).filter(of_rank(sizes, rank)) by {
        let wanted = of_rank(sizes, rank);
        assert(sorted.filter(wanted) == seen.filter(wanted));
        Seq::filter_distributes_over_add(head, tail, wanted);
        Seq::filter_distributes_over_add(head.push(id), tail, wanted);
        head.lemma_filter_push(id, wanted);
        seen.lemma_filter_push(id, wanted);
        if wanted(id) {
            assert forall|i: int| 0 <= i < tail.len() implies rank_of(sizes, #[trigger] tail[i])
                != rank by {
                assert(tail[i] == sorted[at + i]);
            }
            lemma_no_such_rank(sizes, tail, rank);
            assert(head.filter(wanted).push(id) + Seq::<Seq<char>>::empty() =~= (head.filter(
                wanted,
            ) + Seq::<Seq<char>>::empty()).push(id));
        }
    }
}

/// A region of a list shows among the regions of its rank, and what shows
/// among the regions of a rank is a region of the list of that rank.
proof fn lemma_rank_members(sizes: Map<Seq<char>, u64>, ids: Seq<Seq<char>>, rank: int)
    ensures
        forall|i: int|
            0 <= i < ids.len() && rank_of(sizes, #[trigger] ids[i]) == rank ==> ids.filter(
                of_rank(sizes, rank),
            ).contains(ids[i]),
        forall|k: int|
            0 <= k < ids.filter(of_rank(sizes, rank)).len() ==> rank_of(
                sizes,
                #[trigger] ids.filter(of_rank(sizes, rank))[k],
            ) == rank && ids.contains(ids.filter(of_rank(sizes, rank))[k]),
{
    let wanted = of_rank(sizes, rank);
    assert forall|i: int|
        0 <= i < ids.len() && rank_of(sizes, #[trigger] ids[i]) == rank implies ids.filter(
        wanted,
    ).contains(ids[i]) by {
        ids.lemma_filter_contains(wanted, i);
    }
    assert forall|k: int| 0 <= k < ids.filter(wanted).len() implies rank_of(
        sizes,
        #[trigger] ids.filter(wanted)[k],
    ) == rank && ids.contains(ids.filter(wanted)[k]) by {
        ids.lemma_filter_pred(wanted, k);
        assert(ids.filter(wanted).contains(ids.filter(wanted)[k]));
        ids.lemma_filter_contains_rev(wanted, ids.filter(wanted)[k]);
    }
}

/// Ordering regions neither adds nor loses a region.
pub proof fn lemma_sorted_holds_the_same(
    sizes: Map<Seq<char>, u64>,
    sorted: Seq<Seq<char>>,
    given: Seq<Seq<char>>,
    id: Seq<char>,
)
    requires
        same_within_ranks(sizes, sorted, given),
    ensures
        sorted.contains(id) <==> given.contains(id),
{
    let rank = rank_of(sizes, id);
    lemma_rank_members(sizes, sorted, rank);
    lemma_rank_members(sizes, given, rank);
    assert(sorted.filter(of_rank(sizes, rank)) == given.filter(of_rank(sizes, rank)));
    let shown = sorted.filter(of_rank(sizes, rank));
    if sorted.contains(id) {
        let i = choose|i: int| 0 <= i < sorted.len() && sorted[i] == id;
        assert(shown.contains(sorted[i]));
        let k = choose|k: int| 0 <= k < shown.len() && shown[k] == id;
        assert(given.contains(shown[k]));
    }
    if given.contains(id) {
        let i = choose|i: int| 0 <= i < given.len() && given[i] == id;
        assert(shown.contains(given[i]));
        let k = choose|k: int| 0 <= k < shown.len() && shown[k] == id;
        assert(sorted.contains(shown[k]));
    }
}

/// The last region of an ascending list has the rank of the last region
/// of any other ascending list with the same regions.
proof fn lemma_last_rank_bounds(sizes: Map<Seq<char>, u64>, a: Seq<Seq<char>>, b: Seq<Seq<char>>)
    requires
        ascending(sizes, a),
        same_within_ranks(sizes, a, b),
        a.len() > 0,
        b.len() > 0,
    ensures
        rank_of(sizes, b.last()) <= rank_of(sizes, a.last()),
{
    let rank = rank_of(sizes, b.last());
    lemma_rank_members(sizes, a, rank);
    lemma_rank_members(sizes, b, rank);
    let shown = b.filter(of_rank(sizes, rank));
    assert(shown.contains(b[b.len() - 1]));
    assert(a.filter(of_rank(sizes, rank)) == shown);
    let k = choose|k: int| 0 <= k < shown.len() && shown[k] == b.last();
    assert(a.contains(shown[k]));
    let i = choose|i: int| 0 <= i < a.len() && a[i] == b.last();
    assert(rank_of(sizes, a[i]) <= rank_of(sizes, a[a.len() - 1]));
}

/// There is one way only to order regions by area and leave regions of
/// equal area in their order: two ascending lists that hold, rank by rank,
/// the same regions in the same order are one list.
pub proof fn lemma_sorted_is_unique(sizes: Map<Seq<char>, u64>, a: Seq<Seq<char>>, b: Seq<Seq<char>>)
    requires
        ascending(sizes, a),
        ascending(sizes, b),
        same_within_ranks(sizes, a, b),
    ensures
        a == b,
    decreases a.len() + b.len(),
{
    if a.len() == 0 || b.len() == 0 {
        if a.len() > 0 {
            let rank = rank_of(sizes, a[0]);
            lemma_rank_members(sizes, a, rank);
            assert(a.filter(of_rank(sizes, rank)) == b.filter(of_rank(sizes, rank)));
            b.lemma_filter_len(of_rank(sizes, rank));
            assert(a.filter(of_rank(sizes, rank)).contains(a[0]));
        }
        if b.len() > 0 {
            let rank = rank_of(sizes, b[0]);
            lemma_rank_members(sizes, b, rank);
            assert(a.filter(of_rank(sizes, rank)) == b.filter(of_rank(sizes, rank)));
            a.lemma_filter_len(of_rank(sizes, rank));
            assert(b.filter(of_rank(sizes, rank)).contains(b[0]));
        }
        assert(a =~= b);
    } else {
        assert forall|rank: int| #[trigger]
            b.filter(of_rank(sizes, rank)) == a.filter(of_rank(sizes, rank)) by {
            assert(a.filter(of_rank(sizes, rank)) == b.filter(of_rank(sizes, rank)));
        }
        lemma_last_rank_bounds(sizes, a, b);
        lemma_last_rank_bounds(sizes, b, a);
        let top = rank_of(sizes, a.last());
        let a_rest = a.drop_last();
        let b_rest = b.drop_last();
        assert(a =~= a_rest.push(a.last()));
        assert(b =~= b_rest.push(b.last()));
        assert forall|rank: int| #[trigger]
            a_rest.filter(of_rank(sizes, rank)) == b_rest.filter(of_rank(sizes, rank)) by {
            let wanted = of_rank(sizes, rank);
            a_rest.lemma_filter_push(a.last(), wanted);
            b_rest.lemma_filter_push(b.last(), wanted);
            assert(a.filter(wanted) == b.filter(wanted));
            if rank == top {
                let left = a_rest.filter(wanted);
                let right = b_rest.filter(wanted);
                assert(left.push(a.last()) == right.push(b.last()));
                assert(left =~= left.push(a.last()).drop_last());
                assert(right =~= right.push(b.last()).drop_last());
            }
        }
        assert(a.last() == b.last()) by {
            let wanted = of_rank(sizes, top);
            a_rest.lemma_filter_push(a.last(), wanted);
            b_rest.lemma_filter_push(b.last(), wanted);
            assert(a.filter(wanted) == b.filter(wanted));
            assert(a_rest.filter(wanted).push(a.last()).last() == a.last());
            assert(b_rest.filter(wanted).push(b.last()).last() == b.last());
        }
        assert forall|i: int, j: int| 0 <= i <= j < a_rest.len() implies rank_of(
            sizes,
            #[trigger] a_rest[i],
        ) <= rank_of(sizes, #[trigger] a_rest[j]) by {
            assert(rank_of(sizes, a[i]) <= rank_of(sizes, a[j]));
        }
        assert forall|i: int, j: int| 0 <= i <= j < b_rest.len() implies rank_of(
            sizes,
            #[trigger] b_rest[i],
        ) <= rank_of(sizes, #[trigger] b_rest[j]) by {
            assert(rank_of(sizes, b[i]) <= rank_of(sizes, b[j]));
        }
        lemma_sorted_is_unique(sizes, a_rest, b_rest);
    }
}

/// The rank of the area on record for `id`.
pub fn rank(sizes: &StringHashMap<u64>, id: &str) -> (rank: i64)
    ensures
        rank == rank_of(sizes@, id@),
{
    let bits: u64 = match sizes.get(id) {
        Some(bits) => *bits,
        None => 0,
    };
    if bits < 0x8000_0000_0000_0000 {
        bits as i64
    } else {
        -1 - ((bits - 0x8000_0000_0000_0000) as i64)
    }
}

/// The table of the given records.
pub fn build_sizes(records: &Vec<(String, u64)>) -> (sizes: StringHashMap<u64>)
    ensures
        sizes@ == sizes_map(records_view(records@)),
{
    let ghost all = records_view(records@);
    let mut sizes: StringHashMap<u64> = StringHashMap::new();
    let mut i: usize = 0;
    while i < records.len()
        invariant
            i <= records.len(),
            all == records_view(records@),
            sizes@ == sizes_map(all.take(i as int)),
        decreases records.len() - i,
    {
        assert(all.take(i + 1).drop_last() =~= all.take(i as int));
        sizes.insert(records[i].0.clone(), records[i].1);
        i += 1;
    }
    assert(all.take(i as int) =~= all);
    sizes
}

/// Orders regions by area, smallest first. Regions of equal area, and so
/// all regions without a record, stay in the order they came in.
pub fn sort_by_size<'a>(ids: &Vec<&'a str>, sizes: &StringHashMap<u64>) -> (sorted: Vec<&'a str>)
    ensures
        stably_sorted(sizes@, str_views(sorted@), str_views(ids@)),
{
    let ghost all = str_views(ids@);
    let mut sorted: Vec<&'a str> = Vec::new();
    let mut ranks: Vec<i64> = Vec::new();
    let mut i: usize = 0;
    assert(all.take(0) =~= Seq::<Seq<char>>::empty());
    assert(str_views(sorted@) =~= Seq::<Seq<char>>::empty());
    while i < ids.len()
        invariant
            i <= ids.len(),
            all == str_views(ids@),
            ranks.len() == sorted.len(),
            forall|k: int|
                0 <= k < sorted.len() ==> #[trigger] ranks[k] == rank_of(
                    sizes@,
                    str_views(sorted@)[k],
                ),
            stably_sorted(sizes@, str_views(sorted@), all.take(i as int)),
        decreases ids.len() - i,
    {
        let id: &'a str = ids[i];
        let r: i64 = rank(sizes, id);
        let mut at: usize = sorted.len();
        while at > 0 && ranks[at - 1] > r
            invariant
                at <= sorted.len(),
                ranks.len() == sorted.len(),
                forall|k: int| at <= k < ranks.len() ==> #[trigger] ranks[k] > r,
            decreases at,
        {
            at -= 1;
        }
        proof {
            let before = str_views(sorted@);
            assert forall|k: int| 0 <= k < at implies rank_of(sizes@, #[trigger] before[k])
                <= rank_of(sizes@, id@) by {
                assert(ranks[k] == rank_of(sizes@, before[k]));
                assert(ranks[at - 1] == rank_of(sizes@, before[at - 1]));
            }
            assert forall|k: int| at <= k < before.len() implies rank_of(
                sizes@,
                #[trigger] before[k],
            ) > rank_of(sizes@, id@) by {
                assert(ranks[k] == rank_of(sizes@, before[k]));
            }
            lemma_insert_keeps_sorted(sizes@, before, all.take(i as int), at as int, id@);
            lemma_str_views_insert(sorted@, at as int, id);
            assert(all.take(i as int).push(id@) =~= all.take(i + 1));
        }
        sorted.insert(at, id);
        ranks.insert(at, r);
        i += 1;
    }
    assert(all.take(i as int) =~= all);
    sorted
}

} // verus!
