use vstd::prelude::*;
use vstd::string::*;
use crate::error::Error;
use crate::name_map::{list_insert, list_map, NameMap};
use crate::part::UNKNOWN_SCORE;

verus! {

/// A recipe: in the building named `building`, it turns the amounts of the
/// parts in `inputs` into the amounts of the parts in `outputs`.  Amounts
/// are of any type `A`; the recipe book only stores them.
pub struct Recipe<A> {
    pub name: String,
    pub building: String,
    pub outputs: NameMap<A>,
    pub inputs: NameMap<A>,
    /// Number of production steps between the recipe and raw materials.
    pub score: i32,
}

/// What a recipe holds, with texts as character sequences and ingredients
/// as lists sorted by part name.
pub struct RecipeModel<A> {
    pub name: Seq<char>,
    pub building: Seq<char>,
    pub outputs: Seq<(Seq<char>, A)>,
    pub inputs: Seq<(Seq<char>, A)>,
    pub score: int,
}

impl<A> View for Recipe<A> {
    type V = RecipeModel<A>;

    open spec fn view(&self) -> RecipeModel<A> {
        RecipeModel {
            name: self.name@,
            building: self.building@,
            outputs: self.outputs.list(),
            inputs: self.inputs.list(),
            score: self.score as int,
        }
    }
}

/// The recipes of a list, as models.
pub open spec fn models<A>(s: Seq<(Seq<char>, Recipe<A>)>) -> Seq<(Seq<char>, RecipeModel<A>)> {
    s.map_values(|e: (Seq<char>, Recipe<A>)| (e.0, e.1@))
}

/// Putting a recipe in its place and then taking models is taking models and
/// then putting the recipe's model in its place.
pub proof fn lemma_models_insert<A>(s: Seq<(Seq<char>, Recipe<A>)>, k: Seq<char>, r: Recipe<A>)
    ensures
        models(list_insert(s, k, r)) == list_insert(models(s), k, r@),
    decreases s.len(),
{
    let m = models(s);
    if s.len() == 0 {
        assert(models(list_insert(s, k, r)) =~= list_insert(m, k, r@));
    } else if s[0].0 == k {
        assert(models(list_insert(s, k, r)) =~= list_insert(m, k, r@));
    } else if crate::text::lex_lt(k, s[0].0) {
        assert(models(list_insert(s, k, r)) =~= list_insert(m, k, r@));
    } else {
        lemma_models_insert(s.drop_first(), k, r);
        assert(models(s.drop_first()) =~= m.drop_first());
        assert(models(list_insert(s, k, r)) =~= list_insert(m, k, r@));
    }
}

/// Taking models keeps the names.
pub proof fn lemma_models_keys<A>(s: Seq<(Seq<char>, Recipe<A>)>, k: Seq<char>)
    ensures
        list_map(models(s)).contains_key(k) == list_map(s).contains_key(k),
    decreases s.len(),
{
    if s.len() > 0 {
        assert(models(s.drop_first()) =~= models(s).drop_first());
        lemma_models_keys(s.drop_first(), k);
    }
}

/// The message of the error for a recipe that has no name and not exactly
/// one output to be named after.
pub open spec fn no_name_message() -> Seq<char> {
    "no name for recipe"@
}

impl<A> RecipeModel<A> {
    /// A recipe with no name, no building, no ingredients and the unknown score.
    pub open spec fn empty() -> RecipeModel<A> {
        RecipeModel {
            name: Seq::empty(),
            building: Seq::empty(),
            outputs: Seq::empty(),
            inputs: Seq::empty(),
            score: UNKNOWN_SCORE as int,
        }
    }

    /// The recipe once it is sure to have a name: unchanged if it has one,
    /// named after its output if it has exactly one, `None` otherwise.
    pub open spec fn named(self) -> Option<RecipeModel<A>> {
        if self.name.len() > 0 {
            Some(self)
        } else if self.outputs.len() == 1 {
            Some(RecipeModel { name: self.outputs[0].0, ..self })
        } else {
            None
        }
    }
}

impl<A> Recipe<A> {
    /// An empty recipe with the unknown score.
    pub fn new() -> (r: Self)
        ensures
            r@ == RecipeModel::<A>::empty(),
            r.name@.len() == 0,
            r.building@.len() == 0,
            r.outputs@.dom().is_empty(),
            r.inputs@.dom().is_empty(),
            r.score == 1000,
    {
        Recipe {
            name: String::new(),
            building: String::new(),
            outputs: NameMap::new(),
            inputs: NameMap::new(),
            score: UNKNOWN_SCORE,
        }
    }

    /// Makes sure that the recipe has a name, giving it the name of its only
    /// output when it has none.
    pub fn ensure_named(&mut self) -> (r: Result<(), Error>)
        ensures
            match old(self)@.named() {
                Some(m) => r is Ok && final(self)@ == m,
                None => r matches Err(e) && e.message() == no_name_message() && final(self)@ == old(self)@,
            },
            old(self).name@.len() > 0 ==> r is Ok && final(self)@ == old(self)@,
            old(self).name@.len() == 0 && old(self).outputs.list().len() == 1 ==> r is Ok
                && final(self)@ == (RecipeModel { name: old(self).outputs.list()[0].0, ..old(self)@ }),
            old(self).name@.len() == 0 && old(self).outputs.list().len() != 1 ==> (r matches Err(e)
                && e.message() == "no name for recipe"@ && final(self)@ == old(self)@),
    {
        if !self.name.as_str().is_empty() {
            return Ok(());
        }
        if self.outputs.len() != 1 {
            return Err(Error::invalid_argument(String::from_str("no name for recipe")));
        }
        self.name = self.outputs.key_at(0).clone();
        Ok(())
    }
}

} // verus!
