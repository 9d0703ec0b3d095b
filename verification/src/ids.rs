use vstd::prelude::*;
use vstd::string::StringSliceAdditionalSpecFns;
use vstd::utf8::encode_utf8_decode_utf8;

verus! {

/// The region ids that a sequence of string slices spells.
pub open spec fn str_views(ids: Seq<&str>) -> Seq<Seq<char>> {
    Seq::new(ids.len(), |i: int| ids[i]@)
}

/// The region ids that a sequence of owned strings spells.
pub open spec fn string_views(ids: Seq<String>) -> Seq<Seq<char>> {
    Seq::new(ids.len(), |i: int| ids[i]@)
}

/// Appending a slice appends the id that it spells.
pub proof fn lemma_str_views_push(ids: Seq<&str>, id: &str)
    ensures
        str_views(ids.push(id)) == str_views(ids).push(id@),
{
    assert(str_views(ids.push(id)) =~= str_views(ids).push(id@));
}

/// Whether two ids are the same text.
pub fn same_id(a: &str, b: &str) -> (same: bool)
    ensures
        same == (a@ == b@),
{
    let x: &[u8] = a.as_bytes();
    let y: &[u8] = b.as_bytes();
    proof {
        // the encoding determines the text
        encode_utf8_decode_utf8(a@);
        encode_utf8_decode_utf8(b@);
    }
    if x.len() != y.len() {
        return false;
    }
    let mut i: usize = 0;
    while i < x.len()
        invariant
            i <= x.len(),
            x.len() == y.len(),
            x@ == a.spec_bytes(),
            y@ == b.spec_bytes(),
            forall|k: int| 0 <= k < i ==> x[k] == y[k],
        decreases x.len() - i,
    {
        if x[i] != y[i] {
            assert(x@[i as int] != y@[i as int]);
            return false;
        }
        i += 1;
    }
    assert(x@ =~= y@);
    true
}

/// Whether `id` occurs among `ids`.
pub fn contains_id(ids: &[&str], id: &str) -> (found: bool)
    ensures
        found == str_views(ids@).contains(id@),
{
    let mut i: usize = 0;
    while i < ids.len()
        invariant
            i <= ids.len(),
            forall|k: int| 0 <= k < i ==> str_views(ids@)[k] != id@,
        decreases ids.len() - i,
    {
        if same_id(ids[i], id) {
            assert(str_views(ids@)[i as int] == id@);
            return true;
        }
        i += 1;
    }
    false
}

/// Whether `id` occurs among `ids`.
pub fn knows_id(ids: &Vec<String>, id: &str) -> (found: bool)
    ensures
        found == string_views(ids@).contains(id@),
{
    let mut i: usize = 0;
    while i < ids.len()
        invariant
            i <= ids.len(),
            forall|k: int| 0 <= k < i ==> string_views(ids@)[k] != id@,
        decreases ids.len() - i,
    {
        if same_id(ids[i].as_str(), id) {
            assert(string_views(ids@)[i as int] == id@);
            return true;
        }
        i += 1;
    }
    false
}

/// The ids of `ids`, each once, in the order of their first occurrence.
pub fn distinct_ids<'a>(ids: &'a Vec<String>) -> (distinct: Vec<&'a str>)
    ensures
        str_views(distinct@).no_duplicates(),
        forall|id: Seq<char>| #[trigger]
            str_views(distinct@).contains(id) <==> string_views(ids@).contains(id),
{
    let ghost all = string_views(ids@);
    let mut distinct: Vec<&'a str> = Vec::new();
    let mut i: usize = 0;
    while i < ids.len()
        invariant
            i <= ids.len(),
            all == string_views(ids@),
            str_views(distinct@).no_duplicates(),
            forall|id: Seq<char>|
                str_views(distinct@).contains(id) <==> all.take(i as int).contains(id),
        decreases ids.len() - i,
    {
        let id: &'a str = ids[i].as_str();
        let ghost before = str_views(distinct@);
        let known: bool = contains_id(distinct.as_slice(), id);
        if !known {
            proof {
                lemma_str_views_push(distinct@, id);
            }
            distinct.push(id);
        }
        proof {
            let after = str_views(distinct@);
            assert(all.take(i + 1) =~= all.take(i as int).push(id@));
            assert forall|other: Seq<char>| after.contains(other) <==> all.take(i + 1).contains(
                other,
            ) by {
                lemma_push_contains(all.take(i as int), id@, other);
                if !known {
                    lemma_push_contains(before, id@, other);
                }
            }
        }
        i += 1;
    }
    assert(all.take(i as int) =~= all);
    distinct
}

/// What a list holds after one more id was appended.
pub proof fn lemma_push_contains(ids: Seq<Seq<char>>, id: Seq<char>, other: Seq<char>)
    ensures
        ids.push(id).contains(other) <==> ids.contains(other) || other == id,
{
    let grown = ids.push(id);
    if ids.contains(other) {
        let k = choose|k: int| 0 <= k < ids.len() && ids[k] == other;
        assert(grown[k] == other);
    }
    if other == id {
        assert(grown[ids.len() as int] == other);
    }
}

/// Those of `ids` that occur among `known`, in their order.
pub fn retain_known<'a>(ids: &Vec<&'a str>, known: &Vec<String>) -> (kept: Vec<&'a str>)
    ensures
        str_views(ids@).no_duplicates() ==> str_views(kept@).no_duplicates(),
        forall|id: Seq<char>| #[trigger]
            str_views(kept@).contains(id) <==> str_views(ids@).contains(id) && string_views(
                known@,
            ).contains(id),
{
    let ghost all = str_views(ids@);
    let mut kept: Vec<&'a str> = Vec::new();
    let mut i: usize = 0;
    while i < ids.len()
        invariant
            i <= ids.len(),
            all == str_views(ids@),
            all.no_duplicates() ==> str_views(kept@).no_duplicates(),
            forall|id: Seq<char>|
                str_views(kept@).contains(id) <==> all.take(i as int).contains(id)
                    && string_views(known@).contains(id),
        decreases ids.len() - i,
    {
        let id: &'a str = ids[i];
        let ghost before = str_views(kept@);
        let keep: bool = knows_id(known, id);
        if keep {
            proof {
                lemma_str_views_push(kept@, id);
                if all.no_duplicates() && before.contains(id@) {
                    let k = choose|k: int| 0 <= k < i && all.take(i as int)[k] == id@;
                    assert(all[k] == all[i as int]);
                }
            }
            kept.push(id);
        }
        proof {
            let after = str_views(kept@);
            assert(all.take(i + 1) =~= all.take(i as int).push(id@));
            assert forall|other: Seq<char>| after.contains(other) <==> all.take(i + 1).contains(
                other,
            ) && string_views(known@).contains(other) by {
                lemma_push_contains(all.take(i as int), id@, other);
                if keep {
                    lemma_push_contains(before, id@, other);
                }
            }
        }
        i += 1;
    }
    assert(all.take(i as int) =~= all);
    kept
}

/// Appends to `ids` those of `more` that it does not hold yet.
pub fn add_missing<'a>(ids: &mut Vec<&'a str>, more: &Vec<&'a str>)
    ensures
        str_views(old(ids)@).no_duplicates() ==> str_views(final(ids)@).no_duplicates(),
        forall|id: Seq<char>| #[trigger]
            str_views(final(ids)@).contains(id) <==> str_views(old(ids)@).contains(id)
                || str_views(more@).contains(id),
{
    let ghost start = str_views(ids@);
    let ghost all = str_views(more@);
    let mut i: usize = 0;
    while i < more.len()
        invariant
            i <= more.len(),
            all == str_views(more@),
            start.no_duplicates() ==> str_views(ids@).no_duplicates(),
            forall|id: Seq<char>|
                str_views(ids@).contains(id) <==> start.contains(id) || all.take(i as int).contains(
                    id,
                ),
        decreases more.len() - i,
    {
        let id: &'a str = more[i];
        let ghost before = str_views(ids@);
        let known: bool = contains_id(ids.as_slice(), id);
        if !known {
            proof {
                lemma_str_views_push(ids@, id);
            }
            ids.push(id);
        }
        proof {
            let after = str_views(ids@);
            assert(all.take(i + 1) =~= all.take(i as int).push(id@));
            assert forall|other: Seq<char>| after.contains(other) <==> start.contains(other)
                || all.take(i + 1).contains(other) by {
                lemma_push_contains(all.take(i as int), id@, other);
                if !known {
                    lemma_push_contains(before, id@, other);
                }
                assert(before.contains(other) <==> start.contains(other) || all.take(
                    i as int,
                ).contains(other));
                assert(after.contains(other) <==> before.contains(other) || other == id@);
            }
        }
        i += 1;
    }
    assert(all.take(i as int) =~= all);
}

} // verus!
