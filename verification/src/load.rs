use vstd::prelude::*;
use vstd::string::*;
use crate::error::{error_debug, Error};
use crate::ingredient::{ingredient_fields, invalid_number, split_ingredient, invalid_number_message, malformed_message};
use crate::manager::{derived_from, RecipeManager};
use crate::name_map::{lemma_list_map, list_insert, list_map};
use crate::part::Part;
use crate::recipe::{lemma_models_insert, lemma_models_keys, models, no_name_message, Recipe, RecipeModel};
use crate::text::{debug_quoted, quote, trim, trimmed};

verus! {

/// Where an ingredient line puts its part.
#[derive(Copy, Clone, Debug, PartialEq, Eq, Structural)]
pub enum Side {
    /// Marked `<`: an output.
    Output,
    /// Marked `>`: an input.
    Input,
    /// Not marked: the first output of a recipe, or else an input.
    Unmarked,
}

/// One line of a recipe description, read.
pub enum Entry<A> {
    /// A line with nothing but white space: the end of a recipe.
    Blank,
    /// `# name`: the recipe's name.
    Name(String),
    /// `@ building`: where the recipe is made.
    Building(String),
    /// `amount part`, marked or not: an ingredient, with the text it was read from.
    Ingredient { side: Side, text: String, part: String, amount: A },
    /// A line that could not be read.
    Rejected(Error),
}

/// The message of the error for an ingredient that could not be read, where
/// `inner` is the message of the error that reading it gave.
pub open spec fn unparsable_message(text: Seq<char>, inner: Seq<char>) -> Seq<char> {
    "unable to parse ingredient "@ + debug_quoted(text) + ": "@ + error_debug(inner)
}

/// The message of the error for a second recipe with a name already used.
pub open spec fn duplicate_message(name: Seq<char>) -> Seq<char> {
    "duplicate recipes named "@ + debug_quoted(name)
}

/// What an ingredient line holds once its marker is taken off: its side and
/// the description of the ingredient.
pub open spec fn ingredient_line(t: Seq<char>) -> (Side, Seq<char>) {
    if t[0] == '<' {
        (Side::Output, trimmed(t.skip(1)))
    } else if t[0] == '>' {
        (Side::Input, trimmed(t.skip(1)))
    } else {
        (Side::Unmarked, t)
    }
}

/// `e` is what the line `line` says.
pub open spec fn reads_as(line: Seq<char>, e: Entry<String>) -> bool {
    let t = trimmed(line);
    if t.len() == 0 {
        e is Blank
    } else if t[0] == '#' {
        e matches Entry::Name(n) && n@ == trimmed(t.skip(1))
    } else if t[0] == '@' {
        e matches Entry::Building(b) && b@ == trimmed(t.skip(1))
    } else {
        let (side, text) = ingredient_line(t);
        match ingredient_fields(text) {
            Some(f) => e matches Entry::Ingredient { side: s, text: x, part, amount } && s == side && x@ == text && part@ == f.1
                && amount@ == f.0,
            None => e matches Entry::Rejected(err) && err.message() == unparsable_message(text, malformed_message()),
        }
    }
}

/// The error for an ingredient that could not be read.
fn unparsable(text: &str, inner: Error) -> (e: Error)
    ensures
        e.message() == unparsable_message(text@, inner.message()),
{
    let q = quote(text);
    let d = inner.debug_text();
    Error::invalid_argument(String::from_str("unable to parse ingredient ").concat(q.as_str()).concat(": ").concat(d.as_str()))
}

/// The error for an ingredient whose amount is not a number, where `reason`
/// is what the number parser reported.
pub fn reject_amount(text: &str, amount: &str, reason: &str) -> (e: Error)
    ensures
        e.message() == unparsable_message(text@, invalid_number_message(amount@, reason@)),
{
    unparsable(text, invalid_number(amount, reason))
}

/// Reads one line of a recipe description; amounts stay text.
pub fn read_entry(line: &str) -> (e: Entry<String>)
    ensures
        reads_as(line@, e),
        trimmed(line@).len() == 0 <==> e is Blank,
        trimmed(line@).len() > 0 && trimmed(line@)[0] == '#' <==> e is Name,
        trimmed(line@).len() > 0 && trimmed(line@)[0] == '@' <==> e is Building,
        trimmed(line@).len() > 0 && trimmed(line@)[0] == '<' ==> (e matches Entry::Ingredient { side, .. } && side == Side::Output) || e is Rejected,
        trimmed(line@).len() > 0 && trimmed(line@)[0] == '>' ==> (e matches Entry::Ingredient { side, .. } && side == Side::Input) || e is Rejected,
        e matches Entry::Ingredient { side, .. } && side == Side::Unmarked ==> trimmed(line@)[0] != '<' && trimmed(line@)[0] != '>',
        e matches Entry::Name(n) ==> n@ == trimmed(trimmed(line@).skip(1)),
        e matches Entry::Building(b) ==> b@ == trimmed(trimmed(line@).skip(1)),
{
    let t = trim(line);
    let n = t.unicode_len();
    if n == 0 {
        return Entry::Blank;
    }
    let kind = t.get_char(0);
    let rest = t.substring_char(1, n);
    assert(rest@ == t@.skip(1));
    if kind == '#' {
        return Entry::Name(String::from_str(trim(rest)));
    }
    if kind == '@' {
        return Entry::Building(String::from_str(trim(rest)));
    }
    let (side, text) = if kind == '<' {
        (Side::Output, trim(rest))
    } else if kind == '>' {
        (Side::Input, trim(rest))
    } else {
        (Side::Unmarked, t)
    };
    match split_ingredient(text) {
        Ok((amount, part)) => Entry::Ingredient { side, text: String::from_str(text), part, amount },
        Err(inner) => Entry::Rejected(unparsable(text, inner)),
    }
}

/// A recipe with the default building if it names none.
pub open spec fn with_building<A>(r: RecipeModel<A>, building: Seq<char>) -> RecipeModel<A> {
    if r.building.len() == 0 {
        RecipeModel { building, ..r }
    } else {
        r
    }
}

/// The recipes once the recipe `cur` is complete: `cur` named if it has
/// ingredients, given the default building if it names none, and filed under
/// its name if it has one.
pub open spec fn finish_recipe<A>(recipes: Seq<(Seq<char>, RecipeModel<A>)>, cur: RecipeModel<A>, building: Seq<char>) -> Result<Seq<(Seq<char>, RecipeModel<A>)>, Seq<char>> {
    let named = if cur.inputs.len() > 0 || cur.outputs.len() > 0 {
        cur.named()
    } else {
        Some(cur)
    };
    match named {
        None => Err(no_name_message()),
        Some(r) => {
            let r = with_building(r, building);
            if r.name.len() == 0 {
                Ok(recipes)
            } else if list_map(recipes).contains_key(r.name) {
                Err(duplicate_message(r.name))
            } else {
                Ok(list_insert(recipes, r.name, r))
            }
        },
    }
}

/// The recipes filed so far and the recipe being read.
pub struct LoadState<A> {
    pub recipes: Seq<(Seq<char>, RecipeModel<A>)>,
    pub current: RecipeModel<A>,
}

/// What one entry does to the state, or the message of the error it raises.
pub open spec fn load_step<A>(st: LoadState<A>, e: Entry<A>, building: Seq<char>) -> Result<LoadState<A>, Seq<char>> {
    match e {
        Entry::Blank => match finish_recipe(st.recipes, st.current, building) {
            Ok(rs) => Ok(LoadState { recipes: rs, current: RecipeModel::empty() }),
            Err(m) => Err(m),
        },
        Entry::Name(n) => Ok(LoadState { recipes: st.recipes, current: RecipeModel { name: n@, ..st.current } }),
        Entry::Building(b) => Ok(LoadState { recipes: st.recipes, current: RecipeModel { building: b@, ..st.current } }),
        Entry::Ingredient { side, text, part, amount } => if side == Side::Output || (side != Side::Input
            && st.current.outputs.len() == 0) {
            Ok(LoadState { recipes: st.recipes, current: RecipeModel { outputs: list_insert(st.current.outputs, part@, amount), ..st.current } })
        } else {
            Ok(LoadState { recipes: st.recipes, current: RecipeModel { inputs: list_insert(st.current.inputs, part@, amount), ..st.current } })
        },
        Entry::Rejected(err) => Err(err.message()),
    }
}

/// The recipes once all the entries are read and the last recipe is complete,
/// and the message of the first error if one is raised; then the recipes are
/// those filed before it.
pub open spec fn load_run<A>(st: LoadState<A>, entries: Seq<Entry<A>>, building: Seq<char>) -> (Seq<(Seq<char>, RecipeModel<A>)>, Option<Seq<char>>)
    decreases entries.len(),
{
    if entries.len() == 0 {
        match finish_recipe(st.recipes, st.current, building) {
            Ok(rs) => (rs, None),
            Err(m) => (st.recipes, Some(m)),
        }
    } else {
        match load_step(st, entries[0], building) {
            Ok(next) => load_run(next, entries.drop_first(), building),
            Err(m) => (st.recipes, Some(m)),
        }
    }
}

/// The building of recipes that name none.
pub open spec fn default_of(b: Option<String>) -> Seq<char> {
    match b {
        Some(s) => s@,
        None => Seq::empty(),
    }
}

/// Reads a recipe description entry by entry into a manager.
pub struct Loader<A> {
    building: String,
    current: Recipe<A>,
}

impl<A> Loader<A> {
    /// The building of recipes that name none.
    pub closed spec fn building(&self) -> Seq<char> {
        self.building@
    }

    /// The recipe being read.
    pub closed spec fn current(&self) -> RecipeModel<A> {
        self.current@
    }

    /// A loader that has read nothing yet.
    pub fn new(default_building: Option<String>) -> (l: Self)
        ensures
            l.building() == default_of(default_building),
            l.current() == RecipeModel::<A>::empty(),
    {
        let building = match default_building {
            Some(b) => b,
            None => String::new(),
        };
        Loader { building, current: Recipe::new() }
    }

    /// Completes the recipe being read and files it in the manager.
    fn finish_recipe(&mut self, manager: &mut RecipeManager<A>) -> (r: Result<(), Error>)
        ensures
            final(self).building() == old(self).building(),
            final(self).current() == RecipeModel::<A>::empty(),
            final(manager).part_map() == old(manager).part_map(),
            final(manager).ranking() == old(manager).ranking(),
            match finish_recipe(models(old(manager).recipe_map().list()), old(self).current(), old(self).building()) {
                Ok(rs) => r is Ok && models(final(manager).recipe_map().list()) == rs,
                Err(m) => r matches Err(e) && e.message() == m && final(manager).recipe_map() == old(manager).recipe_map(),
            },
    {
        let mut recipe = Recipe::new();
        std::mem::swap(&mut recipe, &mut self.current);
        if recipe.inputs.len() > 0 || recipe.outputs.len() > 0 {
            match recipe.ensure_named() {
                Ok(()) => {},
                Err(e) => return Err(e),
            }
        }
        if recipe.building.as_str().is_empty() {
            recipe.building = self.building.clone();
        }
        if !recipe.name.as_str().is_empty() {
            proof {
                lemma_models_keys(manager.recipe_map().list(), recipe.name@);
            }
            if manager.recipes().contains_key(recipe.name.as_str()) {
                let q = quote(recipe.name.as_str());
                return Err(Error::invalid_argument(String::from_str("duplicate recipes named ").concat(q.as_str())));
            }
            proof {
                lemma_models_insert(manager.recipe_map().list(), recipe.name@, recipe);
            }
            manager.add_recipe(recipe);
        }
        Ok(())
    }

    /// Reads one entry.  The loader is used up by an error, as reading stops there.
    pub fn feed(self, manager: &mut RecipeManager<A>, entry: Entry<A>) -> (r: Result<Self, Error>)
        ensures
            final(manager).part_map() == old(manager).part_map(),
            final(manager).ranking() == old(manager).ranking(),
            match load_step(LoadState { recipes: models(old(manager).recipe_map().list()), current: self.current() }, entry, self.building()) {
                Ok(st) => match r {
                    Ok(l) => l.building() == self.building() && l.current() == st.current && models(final(manager).recipe_map().list())
                        == st.recipes,
                    Err(_) => false,
                },
                Err(m) => match r {
                    Ok(_) => false,
                    Err(e) => e.message() == m && final(manager).recipe_map() == old(manager).recipe_map(),
                },
            },
    {
        let mut l = self;
        match entry {
            Entry::Blank => {
                match l.finish_recipe(manager) {
                    Ok(()) => Ok(l),
                    Err(e) => Err(e),
                }
            },
            Entry::Name(n) => {
                l.current.name = n;
                Ok(l)
            },
            Entry::Building(b) => {
                l.current.building = b;
                Ok(l)
            },
            Entry::Ingredient { side, text: _, part, amount } => {
                let to_outputs = match side {
                    Side::Output => true,
                    Side::Input => false,
                    Side::Unmarked => l.current.outputs.len() == 0,
                };
                if to_outputs {
                    l.current.outputs.insert(part, amount);
                } else {
                    l.current.inputs.insert(part, amount);
                }
                Ok(l)
            },
            Entry::Rejected(e) => Err(e),
        }
    }

    /// Completes the last recipe, then works out the parts and scores.
    pub fn finish(self, manager: &mut RecipeManager<A>) -> (r: Result<(), Error>)
        ensures
            match finish_recipe(models(old(manager).recipe_map().list()), self.current(), self.building()) {
                Ok(rs) => r is Ok && derived_from(rs, old(manager).part_map()@, old(manager).ranking(), *final(manager)),
                Err(m) => match r {
                    Ok(_) => false,
                    Err(e) => e.message() == m && final(manager).recipe_map() == old(manager).recipe_map()
                        && final(manager).part_map() == old(manager).part_map() && final(manager).ranking() == old(manager).ranking(),
                },
            },
    {
        let mut l = self;
        match l.finish_recipe(manager) {
            Ok(()) => {},
            Err(e) => return Err(e),
        }
        manager.derive_parts();
        Ok(())
    }
}

impl<A> RecipeManager<A> {
    /// Reads a recipe description, given as its entries, into the manager,
    /// then works out the parts and scores.  Recipes of no building get
    /// `default_building`.  Reading stops at the first error; the recipes
    /// read until then stay.
    pub fn load(&mut self, entries: Vec<Entry<A>>, default_building: Option<String>) -> (r: Result<(), Error>)
        ensures
            ({
                let run = load_run(
                    LoadState { recipes: models(old(self).recipe_map().list()), current: RecipeModel::<A>::empty() },
                    entries@,
                    default_of(default_building),
                );
                match run.1 {
                    None => r is Ok && derived_from(run.0, old(self).part_map()@, old(self).ranking(), *final(self)),
                    Some(m) => match r {
                        Ok(_) => false,
                        Err(e) => e.message() == m && models(final(self).recipe_map().list()) == run.0
                            && final(self).part_map() == old(self).part_map() && final(self).ranking() == old(self).ranking(),
                    },
                }
            }),
    {
        let ghost b = default_of(default_building);
        let ghost run = load_run(
            LoadState { recipes: models(self.recipe_map().list()), current: RecipeModel::<A>::empty() },
            entries@,
            b,
        );
        let mut loader = Loader::new(default_building);
        let mut pending = entries;
        while pending.len() > 0
            invariant
                loader.building() == b,
                load_run(LoadState { recipes: models(self.recipe_map().list()), current: loader.current() }, pending@, b) == run,
                self.part_map() == old(self).part_map(),
                self.ranking() == old(self).ranking(),
                run == load_run(
                    LoadState { recipes: models(old(self).recipe_map().list()), current: RecipeModel::<A>::empty() },
                    entries@,
                    b,
                ),
                b == default_of(default_building),
            decreases pending@.len(),
        {
            let ghost st = LoadState { recipes: models(self.recipe_map().list()), current: loader.current() };
            let ghost rest = pending@;
            let e = pending.remove(0);
            assert(pending@ == rest.drop_first());
            assert(e == rest[0]);
            assert(load_run(st, rest, b) == match load_step(st, rest[0], b) {
                Ok(next) => load_run(next, rest.drop_first(), b),
                Err(m) => (st.recipes, Some(m)),
            });
            match loader.feed(self, e) {
                Ok(l) => {
                    loader = l;
                },
                Err(err) => {
                    return Err(err);
                },
            }
        }
        loader.finish(self)
    }
}

} // verus!
