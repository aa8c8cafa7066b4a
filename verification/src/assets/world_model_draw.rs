//! Which world models are drawn and which stay collision only: the grid cells of the baked
//! world mesh, and the names that are never props.
use vstd::prelude::*;

use super::world_models::{has_name, WorldBsp};
use super::world_objects::WorldModelPlacement;
use crate::text::{chars_of, contains, contains_chars, lower_chars, lower_seq};

verus! {

/// Grid cell size in LithTech centimetres: about one brick seam.
pub const BAKED_CELL_CM: i32 = 16;

/// The grid cells that the baked world's vertices fall in; each cell once.
#[derive(Debug)]
pub struct BakedOverlapIndex {
    cells: Vec<(i32, i32, i32)>,
}

impl BakedOverlapIndex {
    #[verifier::type_invariant]
    spec fn distinct(&self) -> bool {
        self.cells@.no_duplicates()
    }

    /// The set of cells in the index.
    pub closed spec fn cell_set(&self) -> Set<(i32, i32, i32)> {
        self.cells@.to_set()
    }

    fn has(&self, cell: (i32, i32, i32)) -> (r: bool)
        ensures
            r == self.cell_set().contains(cell),
    {
        let mut i: usize = 0;
        while i < self.cells.len()
            invariant
                i <= self.cells@.len(),
                forall|j: int| 0 <= j < i ==> self.cells@[j] != cell,
            decreases self.cells@.len() - i,
        {
            if self.cells[i].0 == cell.0 && self.cells[i].1 == cell.1 && self.cells[i].2 == cell.2 {
                assert(self.cells@.contains(cell));
                return true;
            }
            i += 1;
        }
        false
    }

    /// The index of the cells that the given points fall in.
    pub fn from_cells(points: &[(i32, i32, i32)]) -> (r: Self)
        ensures
            r.cell_set() == points@.to_set(),
    {
        let mut r = BakedOverlapIndex { cells: Vec::new() };
        let mut i: usize = 0;
        proof {
            assert(r.cells@.to_set() =~= points@.take(0).to_set());
        }
        while i < points.len()
            invariant
                i <= points@.len(),
                r.cells@.to_set() == points@.take(i as int).to_set(),
            decreases points@.len() - i,
        {
            let c = points[i];
            proof {
                use_type_invariant(&r);
                assert(points@.take(i + 1) == points@.take(i as int).push(c));
                lemma_push_to_set(points@.take(i as int), c);
            }
            if !r.has(c) {
                let mut cells = r.cells;
                proof {
                    assert(!cells@.contains(c));
                    lemma_push_to_set(cells@, c);
                }
                let ghost before = cells@;
                cells.push(c);
                proof {
                    assert forall|a: int, b: int| 0 <= a < b < cells@.len() implies cells@[a] != cells@[b] by {
                        if b == cells@.len() - 1 {
                            assert(before.contains(cells@[a]));
                        }
                    }
                }
                r = BakedOverlapIndex { cells };
            } else {
                proof {
                    assert(r.cells@.to_set().insert(c) =~= r.cells@.to_set());
                }
            }
            i += 1;
        }
        assert(points@.take(points@.len() as int) == points@);
        r
    }

    /// Whether a cell holds a baked vertex.
    pub fn contains(&self, cell: (i32, i32, i32)) -> (r: bool)
        ensures
            r == self.cell_set().contains(cell),
    {
        self.has(cell)
    }

    /// How many of the given cells hold a baked vertex, counted with repeats.
    pub fn hits(&self, cells: &[(i32, i32, i32)]) -> (r: usize)
        ensures
            r == cells@.filter(|c: (i32, i32, i32)| self.cell_set().contains(c)).len(),
    {
        let ghost keep = |c: (i32, i32, i32)| self.cell_set().contains(c);
        let mut n: usize = 0;
        let mut i: usize = 0;
        proof {
            assert(cells@.take(0).filter(keep) =~= Seq::<(i32, i32, i32)>::empty()) by {
                reveal_with_fuel(Seq::<(i32, i32, i32)>::filter, 1);
            }
        }
        while i < cells.len()
            invariant
                i <= cells@.len(),
                keep == (|c: (i32, i32, i32)| self.cell_set().contains(c)),
                n == cells@.take(i as int).filter(keep).len(),
                n <= i,
            decreases cells@.len() - i,
        {
            let c = cells[i];
            proof {
                let t = cells@.take(i + 1);
                assert(t.drop_last() == cells@.take(i as int));
                assert(t.last() == c);
                reveal_with_fuel(Seq::<(i32, i32, i32)>::filter, 1);
            }
            if self.has(c) {
                n += 1;
            }
            i += 1;
        }
        assert(cells@.take(cells@.len() as int) == cells@);
        n
    }
}

proof fn lemma_push_to_set(s: Seq<(i32, i32, i32)>, c: (i32, i32, i32))
    ensures
        s.push(c).to_set() == s.to_set().insert(c),
{
    broadcast use vstd::set::group_set_axioms;

    assert forall|x: (i32, i32, i32)| #[trigger] s.push(c).to_set().contains(x) == s.to_set().insert(c).contains(x) by {
        if s.push(c).contains(x) {
            let k = choose|k: int| 0 <= k < s.push(c).len() && s.push(c)[k] == x;
            if k < s.len() {
                assert(s[k] == x);
            }
        }
        if s.contains(x) {
            let k = choose|k: int| 0 <= k < s.len() && s[k] == x;
            assert(s.push(c)[k] == x);
        }
        if x == c {
            assert(s.push(c)[s.len() as int] == x);
        }
    }
    assert(s.push(c).to_set() =~= s.to_set().insert(c));
}

/// A car's shadow plane (`Car_Shadows`): a stain in the game, not a prop.
pub open spec fn shadow_catcher(name: Seq<char>) -> bool {
    contains(lower_seq(name), "shadow"@)
}

/// Whether a world model's name says it only catches shadows.
pub fn looks_like_shadow_catcher(name: &str) -> (r: bool)
    ensures
        r == shadow_catcher(name@),
{
    contains_chars(&lower_chars(&chars_of(name)), &chars_of("shadow"))
}

/// A placed world model is a candidate for the frame when it is shown, is not a shadow
/// catcher, and has a BSP that is not the PhysicsBSP; whether its geometry already sits in
/// the baked mesh is decided on its points.
pub fn frame_candidate(place: &WorldModelPlacement, bsp: Option<&WorldBsp>) -> (r: bool)
    ensures
        r == (!place.hidden && !shadow_catcher(place.name@) && match bsp {
            Some(b) => !has_name(b@, "PhysicsBSP"@),
            None => false,
        }),
{
    if place.hidden {
        return false;
    }
    if looks_like_shadow_catcher(place.name.as_str()) {
        return false;
    }
    match bsp {
        Some(b) => !b.is_physics(),
        None => false,
    }
}

} // verus!
