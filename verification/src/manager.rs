use vstd::prelude::*;
use crate::derivation::{derive_all, parts_derived, ranked, recipes_scored};
use crate::error::Error;
use crate::ingredient::{ingredient_fields, invalid_number_message, malformed_message, Ingredient};
use crate::inventory::Inventory;
use crate::name_map::{lemma_list_map, list_insert, NameMap};
use crate::part::{Part, UNKNOWN_SCORE};
use crate::ranking::{lemma_sorted_entries, rank_sorted, rank_view};
use crate::text::lex_lt;
use crate::recipe::{models, Recipe, RecipeModel};

verus! {

/// Scores between 0 and the unknown score, and each part filed under its own name.
pub open spec fn parts_ok(m: Map<Seq<char>, Part>) -> bool {
    forall|k: Seq<char>| #[trigger] m.contains_key(k) ==> 0 <= m[k].score <= UNKNOWN_SCORE && m[k].name@ == k
}

/// The recipes, the parts they use and a ranking of the recipes by score.
pub struct RecipeManager<A> {
    recipes: NameMap<Recipe<A>>,
    parts: NameMap<Part>,
    sorted_recipes: Vec<(i32, String)>,
}

/// `m` holds what the recipes `rs` give once derived, where the parts were
/// `p0` and the ranking was `k0`.
pub open spec fn derived_from<A>(rs: Seq<(Seq<char>, RecipeModel<A>)>, p0: Map<Seq<char>, Part>, k0: Seq<(int, Seq<char>)>, m: RecipeManager<A>) -> bool {
    &&& parts_derived(rs, p0, m.part_map()@)
    &&& recipes_scored(rs, m.part_map()@, models(m.recipe_map().list()))
    &&& ranked(rs, m.part_map()@, k0, m.ranking())
}

impl<A> RecipeManager<A> {
    /// The recipes, by name.
    pub closed spec fn recipe_map(&self) -> NameMap<Recipe<A>> {
        self.recipes
    }

    /// The parts, by name.
    pub closed spec fn part_map(&self) -> NameMap<Part> {
        self.parts
    }

    /// The `(score, name)` pairs of the recipes, in increasing order.
    pub closed spec fn ranking(&self) -> Seq<(int, Seq<char>)> {
        rank_view(self.sorted_recipes@)
    }

    #[verifier::type_invariant]
    pub open spec fn inv(&self) -> bool {
        &&& parts_ok(self.part_map()@)
        &&& rank_sorted(self.ranking())
    }

    /// A manager without recipes or parts.
    pub fn new() -> (m: Self)
        ensures
            m.recipe_map().list() == Seq::<(Seq<char>, Recipe<A>)>::empty(),
            m.part_map()@ == Map::<Seq<char>, Part>::empty(),
            m.ranking() == Seq::<(int, Seq<char>)>::empty(),
    {
        let m = RecipeManager { recipes: NameMap::new(), parts: NameMap::new(), sorted_recipes: Vec::new() };
        assert(m.ranking() =~= Seq::<(int, Seq<char>)>::empty());
        m
    }

    /// The recipes, by name.
    pub fn recipes(&self) -> (r: &NameMap<Recipe<A>>)
        ensures
            *r == self.recipe_map(),
    {
        &self.recipes
    }

    /// The parts, by name.
    pub fn parts(&self) -> (p: &NameMap<Part>)
        ensures
            *p == self.part_map(),
    {
        &self.parts
    }

    /// The `(score, name)` pairs of the recipes, in increasing order.
    pub fn sorted_recipes(&self) -> (s: &Vec<(i32, String)>)
        ensures
            rank_view(s@) == self.ranking(),
            forall|i: int, j: int| 0 <= i < j < s@.len() ==> s@[i].0 <= s@[j].0
                && (s@[i].0 == s@[j].0 ==> lex_lt(s@[i].1@, s@[j].1@)),
    {
        proof {
            use_type_invariant(self);
            lemma_sorted_entries(self.sorted_recipes@);
        }
        &self.sorted_recipes
    }

    /// Files a recipe under its name, replacing one of the same name.
    pub(crate) fn add_recipe(&mut self, r: Recipe<A>)
        ensures
            final(self).recipe_map().list() == list_insert(old(self).recipe_map().list(), r.name@, r),
            final(self).part_map() == old(self).part_map(),
            final(self).ranking() == old(self).ranking(),
    {
        proof {
            use_type_invariant(&*self);
        }
        let mut recipes = NameMap::new();
        std::mem::swap(&mut recipes, &mut self.recipes);
        let name = r.name.clone();
        recipes.insert(name, r);
        self.recipes = recipes;
    }

    /// Works out the parts that the recipes use, which of them are raw
    /// materials and in which state they come, then the scores of parts and
    /// recipes, and ranks the recipes by score.
    pub fn derive_parts(&mut self)
        ensures
            derived_from(models(old(self).recipe_map().list()), old(self).part_map()@, old(self).ranking(), *final(self)),
    {
        proof {
            use_type_invariant(&*self);
        }
        let mut parts = NameMap::new();
        std::mem::swap(&mut parts, &mut self.parts);
        let mut recipes = NameMap::new();
        std::mem::swap(&mut recipes, &mut self.recipes);
        let mut ranking = Vec::new();
        std::mem::swap(&mut ranking, &mut self.sorted_recipes);
        derive_all(&mut parts, &mut recipes, &mut ranking);
        self.recipes = recipes;
        self.sorted_recipes = ranking;
        self.parts = parts;
    }

    /// Whether every part of the inventory that a recipe uses is a raw material.
    pub fn is_atomic<B>(&self, inventory: &Inventory<B>) -> (r: bool)
        ensures
            r == forall|k: Seq<char>| #[trigger] inventory.amounts()@.contains_key(k) && self.part_map()@.contains_key(k) ==> self.part_map()@[k].atomic,
    {
        let names = inventory.parts();
        proof {
            use_type_invariant(names);
            lemma_list_map(names.list());
        }
        let n = names.len();
        let mut i: usize = 0;
        while i < n
            invariant
                *names == inventory.amounts(),
                n == names.list().len(),
                i <= n,
                forall|j: int| #![trigger names.list()[j]] 0 <= j < n ==> names@.contains_key(names.list()[j].0),
                forall|k: Seq<char>| #[trigger] names@.contains_key(k) ==> exists|j: int| 0 <= j < n && names.list()[j].0 == k,
                forall|j: int| #![trigger names.list()[j]] 0 <= j < i ==> self.part_map()@.contains_key(names.list()[j].0)
                    ==> self.part_map()@[names.list()[j].0].atomic,
            decreases n - i,
        {
            let name = names.key_at(i);
            match self.parts.get(name.as_str()) {
                Some(part) => {
                    if !part.atomic {
                        assert(names@.contains_key(names.list()[i as int].0));
                        return false;
                    }
                },
                None => {},
            }
            i = i + 1;
        }
        assert forall|k: Seq<char>| #[trigger] inventory.amounts()@.contains_key(k) && self.part_map()@.contains_key(k) implies self.part_map()@[k].atomic by {
            let j = choose|j: int| 0 <= j < n && names.list()[j].0 == k;
            assert(names.list()[j].0 == k);
        }
        true
    }

    /// Reads an ingredient description: the part's name and the amount, read
    /// from its text by `read_amount`.  When `read_amount` refuses the text
    /// with a reason, the error says that the number is invalid and gives the
    /// reason.
    pub fn parse_ingredient<F: Fn(&str) -> Result<A, String>>(s: &str, read_amount: F) -> (r: Result<(String, A), Error>)
        requires
            forall|t: &str| read_amount.requires((t,)),
        ensures
            match ingredient_fields(s@) {
                Some(f) => match r {
                    Ok(pa) => pa.0@ == f.1
                        && exists|t: &str| t@ == f.0 && read_amount.ensures((t,), Ok::<A, String>(pa.1)),
                    Err(e) => exists|t: &str, why: String| t@ == f.0
                        && read_amount.ensures((t,), Err::<A, String>(why))
                        && e.message() == invalid_number_message(f.0, why@),
                },
                None => r matches Err(e) && e.message() == malformed_message(),
            },
    {
        match Ingredient::parse(s, read_amount) {
            Ok(ing) => Ok((ing.part, ing.amount)),
            Err(e) => Err(e),
        }
    }
}

} // verus!
