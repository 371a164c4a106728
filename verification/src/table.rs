//! The `table.json` that `the-lunch` lays out: which dishes are present and
//! where their artifacts live.

use vstd::prelude::*;

verus! {

/// The table.json top-level type.
#[derive(Debug)]
pub struct Table {
    /// All dishes, including empty seats.
    pub dishes: Vec<Dish>,
}

/// A single creative artifact on the table.
#[derive(Debug)]
pub struct Dish {
    /// Whether this seat was actually filled.
    pub present: bool,
    /// Where it came from on disk.
    pub provenance: Provenance,
}

/// Source location for a dish.
#[derive(Debug)]
pub struct Provenance {
    /// Path to the specific artifact file, if known.
    pub artifact_path: Option<String>,
}

/// The artifact paths of the present dishes that have one, in table order.
pub open spec fn present_paths(dishes: Seq<Dish>) -> Seq<Seq<char>>
    decreases dishes.len(),
{
    if dishes.len() == 0 {
        Seq::empty()
    } else {
        let rest = present_paths(dishes.drop_last());
        let d = dishes.last();
        match d.provenance.artifact_path {
            Some(p) => if d.present { rest.push(p@) } else { rest },
            None => rest,
        }
    }
}

/// The dish is present and names its artifact.
pub open spec fn is_listed(d: Dish) -> bool {
    d.present && d.provenance.artifact_path is Some
}

/// The characters of the artifact path a dish names.
pub open spec fn listed_path(d: Dish) -> Seq<char> {
    d.provenance.artifact_path->Some_0@
}

/// The present paths are the dishes filtered by "present with a path", each
/// taken by its path, in table order.
pub proof fn lemma_present_paths_filter(dishes: Seq<Dish>)
    ensures
        present_paths(dishes) == dishes.filter(|d: Dish| is_listed(d)).map_values(|d: Dish| listed_path(d)),
    decreases dishes.len(),
{
    reveal(Seq::filter);
    if dishes.len() > 0 {
        lemma_present_paths_filter(dishes.drop_last());
        let f = dishes.filter(|d: Dish| is_listed(d));
        let g = dishes.drop_last().filter(|d: Dish| is_listed(d));
        if is_listed(dishes.last()) {
            assert(f == g.push(dishes.last()));
            assert(f.map_values(|d: Dish| listed_path(d))
                =~= g.map_values(|d: Dish| listed_path(d)).push(listed_path(dishes.last())));
        } else {
            assert(f == g);
        }
    }
}

/// Every dish that is present and names its artifact contributes its path,
/// whatever dishes come before it; and every listed path comes from such a
/// dish. The number of paths is the number of such dishes.
pub proof fn lemma_present_paths_members(dishes: Seq<Dish>)
    ensures
        forall|k: int| 0 <= k < dishes.len() && is_listed(#[trigger] dishes[k])
            ==> present_paths(dishes).contains(listed_path(dishes[k])),
        forall|j: int| #![trigger present_paths(dishes)[j]] 0 <= j < present_paths(dishes).len() ==> exists|k: int|
            0 <= k < dishes.len() && is_listed(#[trigger] dishes[k]) && listed_path(dishes[k]) == present_paths(dishes)[j],
    decreases dishes.len(),
{
    if dishes.len() > 0 {
        let init = dishes.drop_last();
        lemma_present_paths_members(init);
        let rest = present_paths(init);
        let all = present_paths(dishes);
        assert forall|k: int| 0 <= k < dishes.len() && is_listed(#[trigger] dishes[k])
            implies all.contains(listed_path(dishes[k])) by {
            if k < dishes.len() - 1 {
                assert(init[k] == dishes[k]);
                let j = choose|j: int| 0 <= j < rest.len() && rest[j] == listed_path(init[k]);
                assert(all[j] == rest[j]);
            } else {
                assert(all[all.len() - 1] == listed_path(dishes[k]));
            }
        }
        assert forall|j: int| #![trigger all[j]] 0 <= j < all.len() implies exists|k: int|
            0 <= k < dishes.len() && is_listed(#[trigger] dishes[k]) && listed_path(dishes[k]) == all[j] by {
            if j < rest.len() {
                assert(all[j] == rest[j]);
                let k = choose|k: int| 0 <= k < init.len() && is_listed(#[trigger] init[k]) && listed_path(init[k]) == rest[j];
                assert(init[k] == dishes[k]);
            } else {
                assert(is_listed(dishes[dishes.len() - 1]));
            }
        }
    }
}

impl Table {
    /// Return only the dishes that are present and have a known artifact path.
    pub fn present_artifacts(&self) -> (r: Vec<String>)
        ensures
            r@.map_values(|s: String| s@) == present_paths(self.dishes@),
            r@.map_values(|s: String| s@)
                == self.dishes@.filter(|d: Dish| is_listed(d)).map_values(|d: Dish| listed_path(d)),
            forall|k: int| 0 <= k < self.dishes@.len() && is_listed(#[trigger] self.dishes@[k])
                ==> r@.map_values(|s: String| s@).contains(listed_path(self.dishes@[k])),
    {
        let mut r: Vec<String> = Vec::new();
        let mut i: usize = 0;
        while i < self.dishes.len()
            invariant
                i <= self.dishes.len(),
                r@.map_values(|s: String| s@) == present_paths(self.dishes@.take(i as int)),
            decreases self.dishes.len() - i,
        {
            let d = &self.dishes[i];
            assert(self.dishes@.take(i + 1).drop_last() == self.dishes@.take(i as int));
            if d.present {
                match &d.provenance.artifact_path {
                    Some(p) => {
                        r.push(p.clone());
                    },
                    None => {},
                }
            }
            i += 1;
            assert(r@.map_values(|s: String| s@) == present_paths(self.dishes@.take(i as int)));
        }
        assert(self.dishes@.take(self.dishes.len() as int) == self.dishes@);
        proof {
            lemma_present_paths_filter(self.dishes@);
            lemma_present_paths_members(self.dishes@);
        }
        r
    }
}

} // verus!
