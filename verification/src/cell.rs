use crate::ids::{contains_id, lemma_str_views_push, same_id, str_views, string_views};
use crate::multipolygon::{Multipolygon, MultipolygonView};
use crate::point::Point;
use vstd::prelude::*;

verus! {

/// One tile of the raster.
///
/// `containing_ids` names the regions that cover the whole tile.
/// `intersecting_areas` holds, for each region whose border runs through
/// the tile, its id and its shape in the tile's own coordinates.
#[derive(Clone, Debug, PartialEq, Eq)]
pub struct Cell {
    pub containing_ids: Vec<String>,
    pub intersecting_areas: Vec<(String, Multipolygon)>,
}

/// The mathematical content of a [`Cell`].
pub struct CellView {
    pub containing_ids: Seq<Seq<char>>,
    pub intersecting_areas: Seq<(Seq<char>, MultipolygonView)>,
}

/// Ids and shapes of a vector of boundary entries.
pub open spec fn areas_view(areas: Seq<(String, Multipolygon)>) -> Seq<(Seq<char>, MultipolygonView)> {
    Seq::new(areas.len(), |i: int| (areas[i].0@, areas[i].1@))
}

impl View for Cell {
    type V = CellView;

    open spec fn view(&self) -> CellView {
        CellView {
            containing_ids: string_views(self.containing_ids@),
            intersecting_areas: areas_view(self.intersecting_areas@),
        }
    }
}

/// The ids of the entries whose shape covers `p`, in the order of the
/// entries.
pub open spec fn covering_ids(areas: Seq<(Seq<char>, MultipolygonView)>, p: Point) -> Seq<
    Seq<char>,
>
    decreases areas.len(),
{
    if areas.len() == 0 {
        Seq::empty()
    } else if areas.last().1.covers(p) {
        covering_ids(areas.drop_last(), p).push(areas.last().0)
    } else {
        covering_ids(areas.drop_last(), p)
    }
}

/// The ids of all entries, in the order of the entries.
pub open spec fn area_ids(areas: Seq<(Seq<char>, MultipolygonView)>) -> Seq<Seq<char>> {
    Seq::new(areas.len(), |i: int| areas[i].0)
}

impl CellView {
    /// Whether `p` lies in region `id`: the region covers the whole cell,
    /// or one of its shapes in this cell covers `p`.
    pub open spec fn is_in(self, p: Point, id: Seq<char>) -> bool {
        self.containing_ids.contains(id) || exists|i: int|
            0 <= i < self.intersecting_areas.len() && (#[trigger] self.intersecting_areas[i]).0
                == id && self.intersecting_areas[i].1.covers(p)
    }

    /// Whether `p` lies in at least one of the regions `ids`.
    pub open spec fn is_in_any(self, p: Point, ids: Seq<Seq<char>>) -> bool {
        exists|k: int| 0 <= k < ids.len() && self.is_in(p, #[trigger] ids[k])
    }

    /// The regions that `p` lies in: first those that cover the cell, then
    /// those whose shape covers `p`.
    pub open spec fn get_ids(self, p: Point) -> Seq<Seq<char>> {
        self.containing_ids + covering_ids(self.intersecting_areas, p)
    }

    /// Every region that the cell has a part in.
    pub open spec fn get_all_ids(self) -> Seq<Seq<char>> {
        self.containing_ids + area_ids(self.intersecting_areas)
    }
}

/// An id is among [`covering_ids`] exactly if an entry with that id
/// covers the point.
pub proof fn lemma_covering_ids_contains(
    areas: Seq<(Seq<char>, MultipolygonView)>,
    p: Point,
    id: Seq<char>,
)
    ensures
        covering_ids(areas, p).contains(id) <==> exists|i: int|
            0 <= i < areas.len() && (#[trigger] areas[i]).0 == id && areas[i].1.covers(p),
    decreases areas.len(),
{
    if areas.len() > 0 {
        let rest = areas.drop_last();
        let last = areas.last();
        lemma_covering_ids_contains(rest, p, id);
        let found = covering_ids(areas, p);
        if found.contains(id) {
            let k = choose|k: int| 0 <= k < found.len() && found[k] == id;
            if last.1.covers(p) && k == found.len() - 1 {
                assert(areas[areas.len() - 1].0 == id);
            } else {
                assert(covering_ids(rest, p)[k] == id);
                let i = choose|i: int|
                    0 <= i < rest.len() && (#[trigger] rest[i]).0 == id && rest[i].1.covers(p);
                assert(areas[i] == rest[i]);
            }
        }
        if exists|i: int|
            0 <= i < areas.len() && (#[trigger] areas[i]).0 == id && areas[i].1.covers(p) {
            let i = choose|i: int|
                0 <= i < areas.len() && (#[trigger] areas[i]).0 == id && areas[i].1.covers(p);
            if i == areas.len() - 1 {
                assert(found.last() == id);
            } else {
                assert(rest[i] == areas[i]);
                let k = choose|k: int|
                    0 <= k < covering_ids(rest, p).len() && covering_ids(rest, p)[k] == id;
                assert(found[k] == id);
            }
        }
    }
}

/// A position lies in a region exactly if [`CellView::get_ids`] lists the
/// region for it.
pub proof fn lemma_is_in_iff_listed(cell: CellView, p: Point, id: Seq<char>)
    ensures
        cell.is_in(p, id) <==> cell.get_ids(p).contains(id),
{
    lemma_covering_ids_contains(cell.intersecting_areas, p, id);
    let covering = covering_ids(cell.intersecting_areas, p);
    let listed = cell.get_ids(p);
    if cell.containing_ids.contains(id) {
        let k = choose|k: int| 0 <= k < cell.containing_ids.len() && cell.containing_ids[k] == id;
        assert(listed[k] == id);
    }
    if covering.contains(id) {
        let k = choose|k: int| 0 <= k < covering.len() && covering[k] == id;
        assert(listed[cell.containing_ids.len() + k] == id);
    }
    if listed.contains(id) {
        let k = choose|k: int| 0 <= k < listed.len() && listed[k] == id;
        if k < cell.containing_ids.len() {
            assert(cell.containing_ids[k] == id);
        } else {
            assert(covering[k - cell.containing_ids.len()] == id);
        }
    }
}

/// Every region that [`CellView::get_ids`] lists for some position is
/// among [`CellView::get_all_ids`].
pub proof fn lemma_listed_ids_are_known(cell: CellView, p: Point, id: Seq<char>)
    requires
        cell.get_ids(p).contains(id),
    ensures
        cell.get_all_ids().contains(id),
{
    lemma_is_in_iff_listed(cell, p, id);
    let all = cell.get_all_ids();
    if cell.containing_ids.contains(id) {
        let k = choose|k: int| 0 <= k < cell.containing_ids.len() && cell.containing_ids[k] == id;
        assert(all[k] == id);
    } else {
        let i = choose|i: int|
            0 <= i < cell.intersecting_areas.len() && (#[trigger] cell.intersecting_areas[i]).0
                == id && cell.intersecting_areas[i].1.covers(p);
        assert(all[cell.containing_ids.len() + i] == id);
    }
}

impl Cell {
    /// Whether `point` lies in the region `id`.
    pub fn is_in(&self, point: Point, id: &str) -> (inside: bool)
        ensures
            inside == self@.is_in(point, id@),
    {
        let mut i: usize = 0;
        while i < self.containing_ids.len()
            invariant
                i <= self.containing_ids.len(),
                forall|k: int| 0 <= k < i ==> self@.containing_ids[k] != id@,
            decreases self.containing_ids.len() - i,
        {
            if same_id(self.containing_ids[i].as_str(), id) {
                assert(self@.containing_ids[i as int] == id@);
                return true;
            }
            i += 1;
        }
        let mut j: usize = 0;
        while j < self.intersecting_areas.len()
            invariant
                j <= self.intersecting_areas.len(),
                !self@.containing_ids.contains(id@),
                forall|k: int|
                    0 <= k < j ==> !((#[trigger] self@.intersecting_areas[k]).0 == id@
                        && self@.intersecting_areas[k].1.covers(point)),
            decreases self.intersecting_areas.len() - j,
        {
            if same_id(self.intersecting_areas[j].0.as_str(), id) {
                if self.intersecting_areas[j].1.covers(&point) {
                    assert(self@.intersecting_areas[j as int].0 == id@);
                    return true;
                }
            }
            j += 1;
        }
        false
    }

    /// Whether `point` lies in at least one of the regions `ids`.
    pub fn is_in_any(&self, point: Point, ids: &[&str]) -> (inside: bool)
        ensures
            inside == self@.is_in_any(point, str_views(ids@)),
    {
        let ghost wanted = str_views(ids@);
        let mut i: usize = 0;
        while i < self.containing_ids.len()
            invariant
                i <= self.containing_ids.len(),
                wanted == str_views(ids@),
                forall|k: int| 0 <= k < i ==> !wanted.contains(self@.containing_ids[k]),
            decreases self.containing_ids.len() - i,
        {
            if contains_id(ids, self.containing_ids[i].as_str()) {
                let ghost id = self@.containing_ids[i as int];
                proof {
                    let k = choose|k: int| 0 <= k < wanted.len() && wanted[k] == id;
                    assert(self@.is_in(point, wanted[k]));
                }
                return true;
            }
            i += 1;
        }
        let mut j: usize = 0;
        while j < self.intersecting_areas.len()
            invariant
                j <= self.intersecting_areas.len(),
                wanted == str_views(ids@),
                forall|k: int|
                    0 <= k < self@.containing_ids.len() ==> !wanted.contains(
                        self@.containing_ids[k],
                    ),
                forall|k: int|
                    0 <= k < j ==> !(wanted.contains((#[trigger] self@.intersecting_areas[k]).0)
                        && self@.intersecting_areas[k].1.covers(point)),
            decreases self.intersecting_areas.len() - j,
        {
            if contains_id(ids, self.intersecting_areas[j].0.as_str()) {
                if self.intersecting_areas[j].1.covers(&point) {
                    let ghost id = self@.intersecting_areas[j as int].0;
                    proof {
                        let k = choose|k: int| 0 <= k < wanted.len() && wanted[k] == id;
                        assert(self@.is_in(point, wanted[k]));
                    }
                    return true;
                }
            }
            j += 1;
        }
        proof {
            if self@.is_in_any(point, wanted) {
                let k = choose|k: int| 0 <= k < wanted.len() && self@.is_in(point, #[trigger] wanted[k]);
                if self@.containing_ids.contains(wanted[k]) {
                    let c = choose|c: int|
                        0 <= c < self@.containing_ids.len() && self@.containing_ids[c] == wanted[k];
                    assert(wanted.contains(self@.containing_ids[c]));
                } else {
                    let a = choose|a: int|
                        0 <= a < self@.intersecting_areas.len() && (
                        #[trigger] self@.intersecting_areas[a]).0 == wanted[k]
                            && self@.intersecting_areas[a].1.covers(point);
                    assert(wanted.contains(self@.intersecting_areas[a].0));
                }
            }
        }
        false
    }

    /// The regions that `point` lies in: first those that cover the cell,
    /// then those whose shape covers `point`, each list in its stored
    /// order.
    pub fn get_ids(&self, point: Point) -> (ids: Vec<&str>)
        ensures
            str_views(ids@) == self@.get_ids(point),
    {
        let mut ids: Vec<&str> = Vec::new();
        let mut i: usize = 0;
        while i < self.containing_ids.len()
            invariant
                i <= self.containing_ids.len(),
                str_views(ids@) == self@.containing_ids.take(i as int),
            decreases self.containing_ids.len() - i,
        {
            let id: &str = self.containing_ids[i].as_str();
            proof {
                lemma_str_views_push(ids@, id);
            }
            ids.push(id);
            assert(str_views(ids@) =~= self@.containing_ids.take(i + 1));
            i += 1;
        }
        assert(self@.containing_ids.take(i as int) =~= self@.containing_ids);
        let ghost areas = self@.intersecting_areas;
        let mut j: usize = 0;
        while j < self.intersecting_areas.len()
            invariant
                j <= self.intersecting_areas.len(),
                areas == self@.intersecting_areas,
                str_views(ids@) == self@.containing_ids + covering_ids(areas.take(j as int), point),
            decreases self.intersecting_areas.len() - j,
        {
            assert(areas.take(j + 1).drop_last() =~= areas.take(j as int));
            if self.intersecting_areas[j].1.covers(&point) {
                let id: &str = self.intersecting_areas[j].0.as_str();
                proof {
                    lemma_str_views_push(ids@, id);
                }
                ids.push(id);
            }
            assert(str_views(ids@) =~= self@.containing_ids + covering_ids(
                areas.take(j + 1),
                point,
            ));
            j += 1;
        }
        assert(areas.take(j as int) =~= areas);
        ids
    }

    /// Every region that the cell has a part in: first those that cover
    /// it, then those whose border runs through it.
    pub fn get_all_ids(&self) -> (ids: Vec<&str>)
        ensures
            str_views(ids@) == self@.get_all_ids(),
    {
        let mut ids: Vec<&str> = Vec::new();
        let mut i: usize = 0;
        while i < self.containing_ids.len()
            invariant
                i <= self.containing_ids.len(),
                str_views(ids@) == self@.containing_ids.take(i as int),
            decreases self.containing_ids.len() - i,
        {
            let id: &str = self.containing_ids[i].as_str();
            proof {
                lemma_str_views_push(ids@, id);
            }
            ids.push(id);
            assert(str_views(ids@) =~= self@.containing_ids.take(i + 1));
            i += 1;
        }
        assert(self@.containing_ids.take(i as int) =~= self@.containing_ids);
        let ghost names = area_ids(self@.intersecting_areas);
        let mut j: usize = 0;
        while j < self.intersecting_areas.len()
            invariant
                j <= self.intersecting_areas.len(),
                names == area_ids(self@.intersecting_areas),
                str_views(ids@) == self@.containing_ids + names.take(j as int),
            decreases self.intersecting_areas.len() - j,
        {
            let id: &str = self.intersecting_areas[j].0.as_str();
            proof {
                lemma_str_views_push(ids@, id);
            }
            ids.push(id);
            assert(str_views(ids@) =~= self@.containing_ids + names.take(j + 1));
            j += 1;
        }
        assert(names.take(j as int) =~= names);
        ids
    }
}

} // verus!
