use vstd::prelude::*;
use crate::name_map::{lemma_list_map, NameMap};
use crate::recipe::Recipe;

verus! {

/// The amounts of parts that are at hand or wanted, by part name.
pub struct Inventory<A> {
    parts: NameMap<A>,
}

impl<A> Inventory<A> {
    /// The amounts, by part name.
    pub closed spec fn amounts(&self) -> NameMap<A> {
        self.parts
    }

    /// An empty inventory.
    pub fn new() -> (inv: Self)
        ensures
            inv.amounts()@ == Map::<Seq<char>, A>::empty(),
            inv.amounts().list() == Seq::<(Seq<char>, A)>::empty(),
    {
        Inventory { parts: NameMap::new() }
    }

    /// The amounts, by part name.
    pub fn parts(&self) -> (p: &NameMap<A>)
        ensures
            *p == self.amounts(),
    {
        &self.parts
    }

    /// The amounts, by part name, to be changed.
    pub fn parts_mut(&mut self) -> (p: &mut NameMap<A>)
        ensures
            *p == old(self).amounts(),
            final(self).amounts() == *final(p),
    {
        &mut self.parts
    }
}

/// For each entry of `wants` whose part the recipe outputs make, in order:
/// the amount wanted and the amount that one run of the recipe makes.
pub open spec fn wants_and_yields<A>(wants: Seq<(Seq<char>, A)>, outputs: Map<Seq<char>, A>) -> Seq<(A, A)>
    decreases wants.len(),
{
    if wants.len() == 0 {
        Seq::empty()
    } else {
        let rest = wants_and_yields(wants.drop_last(), outputs);
        let e = wants.last();
        if outputs.contains_key(e.0) {
            rest.push((e.1, outputs[e.0]))
        } else {
            rest
        }
    }
}

/// The pairs are those of the wanted parts that the outputs make, kept in
/// order: filtering the wanted entries by whether the outputs make them,
/// then pairing each with what one run makes.
pub proof fn lemma_wants_and_yields_filter<A>(wants: Seq<(Seq<char>, A)>, outputs: Map<Seq<char>, A>)
    ensures
        wants_and_yields(wants, outputs) == wants.filter(|e: (Seq<char>, A)| outputs.contains_key(e.0)).map_values(
            |e: (Seq<char>, A)| (e.1, outputs[e.0]),
        ),
    decreases wants.len(),
{
    reveal(Seq::filter);
    let f = |e: (Seq<char>, A)| outputs.contains_key(e.0);
    let g = |e: (Seq<char>, A)| (e.1, outputs[e.0]);
    if wants.len() == 0 {
        assert(wants.filter(f).map_values(g) =~= Seq::<(A, A)>::empty());
    } else {
        lemma_wants_and_yields_filter(wants.drop_last(), outputs);
        let sub = wants.drop_last().filter(f);
        let rest = wants_and_yields(wants.drop_last(), outputs);
        assert(rest == sub.map_values(g));
        if f(wants.last()) {
            assert(wants.filter(f) == sub.push(wants.last()));
            assert(sub.push(wants.last()).map_values(g) =~= sub.map_values(g).push(g(wants.last())));
            assert(wants_and_yields(wants, outputs) =~= wants.filter(f).map_values(g));
        } else {
            assert(wants.filter(f) == sub);
            assert(wants_and_yields(wants, outputs) =~= wants.filter(f).map_values(g));
        }
    }
}

/// Every wanted part that the outputs make gives a pair: the amount wanted
/// and the amount one run makes.
pub proof fn lemma_wants_and_yields_has<A>(wants: Seq<(Seq<char>, A)>, outputs: Map<Seq<char>, A>, j: int)
    requires
        0 <= j < wants.len(),
        outputs.contains_key(wants[j].0),
    ensures
        wants_and_yields(wants, outputs).contains((wants[j].1, outputs[wants[j].0])),
    decreases wants.len(),
{
    let r = wants_and_yields(wants, outputs);
    if j == wants.len() - 1 {
        assert(r[r.len() - 1] == (wants[j].1, outputs[wants[j].0]));
    } else {
        let t = wants.drop_last();
        assert(t[j] == wants[j]);
        lemma_wants_and_yields_has(t, outputs, j);
        let rest = wants_and_yields(t, outputs);
        let i = choose|i: int| 0 <= i < rest.len() && rest[i] == (wants[j].1, outputs[wants[j].0]);
        if outputs.contains_key(wants.last().0) {
            assert(r[i] == rest[i]);
        }
    }
}

impl<A: Copy> Inventory<A> {
    /// For each wanted part that the recipe makes, in order of part names:
    /// the amount wanted and the amount that one run of the recipe makes.
    /// How often the recipe must run follows from these pairs.
    pub fn yields_of(&self, recipe: &Recipe<A>) -> (r: Vec<(A, A)>)
        ensures
            r@ == wants_and_yields(self.amounts().list(), recipe.outputs@),
            r@ == self.amounts().list().filter(|e: (Seq<char>, A)| recipe.outputs@.contains_key(e.0)).map_values(
                |e: (Seq<char>, A)| (e.1, recipe.outputs@[e.0]),
            ),
            forall|k: Seq<char>| #[trigger] self.amounts()@.contains_key(k) && recipe.outputs@.contains_key(k)
                ==> r@.contains((self.amounts()@[k], recipe.outputs@[k])),
    {
        proof {
            use_type_invariant(&self.parts);
            lemma_list_map(self.parts.list());
            lemma_wants_and_yields_filter(self.parts.list(), recipe.outputs@);
            assert forall|k: Seq<char>| #[trigger] self.amounts()@.contains_key(k) && recipe.outputs@.contains_key(k)
                implies wants_and_yields(self.parts.list(), recipe.outputs@).contains((self.amounts()@[k], recipe.outputs@[k])) by {
                let j = choose|j: int| 0 <= j < self.parts.list().len() && self.parts.list()[j].0 == k;
                lemma_wants_and_yields_has(self.parts.list(), recipe.outputs@, j);
            }
        }
        let ghost s = self.parts.list();
        let n = self.parts.len();
        let mut r: Vec<(A, A)> = Vec::new();
        let mut i: usize = 0;
        while i < n
            invariant
                s == self.parts.list(),
                n == s.len(),
                i <= n,
                r@ == wants_and_yields(s.subrange(0, i as int), recipe.outputs@),
            decreases n - i,
        {
            proof {
                assert(s.subrange(0, i + 1).drop_last() =~= s.subrange(0, i as int));
            }
            match recipe.outputs.get(self.parts.key_at(i).as_str()) {
                Some(have) => {
                    r.push((*self.parts.value_at(i), *have));
                }
                None => {}
            }
            i = i + 1;
        }
        proof {
            assert(s.subrange(0, n as int) =~= s);
        }
        r
    }

    /// The inventory from which one application of the recipe, run as often
    /// as needed, gives this one: the parts that the recipe does not make are
    /// kept, and each input of the recipe is wanted in the amount that
    /// `input_amount` gives from the input's amount per run and the amount
    /// of that part wanted now, if any.
    pub fn before_recipe<F: Fn(A, Option<A>) -> A>(&self, recipe: &Recipe<A>, input_amount: F) -> (r: Inventory<A>)
        requires
            forall|want: A, have: Option<A>| input_amount.requires((want, have)),
        ensures
            forall|k: Seq<char>| #[trigger] r.amounts()@.contains_key(k) <==> (
                (self.amounts()@.contains_key(k) && !recipe.outputs@.contains_key(k))
                || recipe.inputs@.contains_key(k)),
            forall|k: Seq<char>| #![trigger r.amounts()@[k]]
                self.amounts()@.contains_key(k) && !recipe.outputs@.contains_key(k)
                && !recipe.inputs@.contains_key(k) ==> r.amounts()@[k] == self.amounts()@[k],
            forall|k: Seq<char>| #[trigger] recipe.inputs@.contains_key(k) ==> input_amount.ensures(
                (recipe.inputs@[k], self.amounts()@.get(k)),
                r.amounts()@[k],
            ),
    {
        proof {
            use_type_invariant(&self.parts);
            use_type_invariant(&recipe.inputs);
            lemma_list_map(self.parts.list());
            lemma_list_map(recipe.inputs.list());
        }
        let ghost s = self.parts.list();
        let ghost mine = self.parts@;
        let ghost outs = recipe.outputs@;
        let mut out: NameMap<A> = NameMap::new();
        let n = self.parts.len();
        let mut i: usize = 0;
        while i < n
            invariant
                s == self.parts.list(),
                mine == self.parts@,
                outs == recipe.outputs@,
                n == s.len(),
                i <= n,
                forall|j: int| #![trigger s[j]] 0 <= j < s.len() ==> mine.contains_key(s[j].0) && mine[s[j].0] == s[j].1,
                forall|k: Seq<char>| #[trigger] out@.contains_key(k) <==> (
                    !outs.contains_key(k) && exists|j: int| 0 <= j < i && s[j].0 == k),
                forall|k: Seq<char>| #[trigger] out@.contains_key(k) ==> mine.contains_key(k) && out@[k] == mine[k],
            decreases n - i,
        {
            let key = self.parts.key_at(i);
            if !recipe.outputs.contains_key(key.as_str()) {
                out.insert(key.clone(), *self.parts.value_at(i));
            }
            proof {
                assert forall|k: Seq<char>| #[trigger] out@.contains_key(k) <==> (
                    !outs.contains_key(k) && exists|j: int| 0 <= j < i + 1 && s[j].0 == k) by {
                    if !outs.contains_key(k) && exists|j: int| 0 <= j < i + 1 && s[j].0 == k {
                        let j = choose|j: int| 0 <= j < i + 1 && s[j].0 == k;
                        if j < i {
                            assert(exists|j: int| 0 <= j < i && s[j].0 == k);
                        }
                    }
                }
            }
            i = i + 1;
        }
        let ghost kept = out@;
        let ins = &recipe.inputs;
        let ghost t = ins.list();
        let m = ins.len();
        let mut q: usize = 0;
        while q < m
            invariant
                s == self.parts.list(),
                mine == self.parts@,
                outs == recipe.outputs@,
                t == ins.list(),
                ins@ == recipe.inputs@,
                m == t.len(),
                q <= m,
                forall|j: int| #![trigger t[j]] 0 <= j < t.len() ==> ins@.contains_key(t[j].0) && ins@[t[j].0] == t[j].1,
                forall|a: int, b: int| 0 <= a < t.len() && 0 <= b < t.len() && a != b ==> #[trigger] t[a].0 != #[trigger] t[b].0,
                forall|k: Seq<char>| #[trigger] kept.contains_key(k) ==> mine.contains_key(k) && kept[k] == mine[k],
                forall|k: Seq<char>| #[trigger] out@.contains_key(k) <==> (
                    kept.contains_key(k) || exists|j: int| 0 <= j < q && t[j].0 == k),
                forall|k: Seq<char>| #[trigger] out@.contains_key(k) && !(exists|j: int| 0 <= j < q && t[j].0 == k)
                    ==> out@[k] == kept[k],
                forall|j: int| #![trigger t[j]] 0 <= j < q ==> input_amount.ensures((t[j].1, mine.get(t[j].0)), out@[t[j].0]),
                forall|want: A, have: Option<A>| input_amount.requires((want, have)),
            decreases m - q,
        {
            let part = ins.key_at(q);
            let want = *ins.value_at(q);
            let have = match self.parts.get(part.as_str()) {
                Some(h) => Some(*h),
                None => None,
            };
            let amount = input_amount(want, have);
            let ghost before = out@;
            out.insert(part.clone(), amount);
            proof {
                assert forall|k: Seq<char>| #[trigger] out@.contains_key(k) <==> (
                    kept.contains_key(k) || exists|j: int| 0 <= j < q + 1 && t[j].0 == k) by {
                    if exists|j: int| 0 <= j < q + 1 && t[j].0 == k {
                        let j = choose|j: int| 0 <= j < q + 1 && t[j].0 == k;
                        if j < q {
                            assert(exists|j: int| 0 <= j < q && t[j].0 == k);
                        }
                    }
                }
                assert forall|k: Seq<char>| #[trigger] out@.contains_key(k) && !(exists|j: int| 0 <= j < q + 1 && t[j].0 == k)
                    implies out@[k] == kept[k] by {
                    assert(k != t[q as int].0);
                    if exists|j: int| 0 <= j < q && t[j].0 == k {
                        let j = choose|j: int| 0 <= j < q && t[j].0 == k;
                        assert(0 <= j < q + 1 && t[j].0 == k);
                    }
                }
                assert forall|j: int| #![trigger t[j]] 0 <= j < q + 1 implies input_amount.ensures((t[j].1, mine.get(t[j].0)), out@[t[j].0]) by {
                    if j < q {
                        assert(t[j].0 != t[q as int].0);
                        assert(before.contains_key(t[j].0));
                    }
                }
            }
            q = q + 1;
        }
        proof {
            assert forall|k: Seq<char>| #[trigger] out@.contains_key(k) <==> (
                (mine.contains_key(k) && !outs.contains_key(k)) || recipe.inputs@.contains_key(k)) by {
                if mine.contains_key(k) && !outs.contains_key(k) {
                    let j = choose|j: int| 0 <= j < s.len() && s[j].0 == k;
                    assert(kept.contains_key(k));
                }
                if recipe.inputs@.contains_key(k) {
                    let j = choose|j: int| 0 <= j < t.len() && t[j].0 == k;
                    assert(exists|j: int| 0 <= j < q && t[j].0 == k);
                }
                if exists|j: int| 0 <= j < q && t[j].0 == k {
                    let j = choose|j: int| 0 <= j < q && t[j].0 == k;
                    assert(ins@.contains_key(t[j].0));
                }
                if kept.contains_key(k) {
                    let j = choose|j: int| 0 <= j < n && s[j].0 == k;
                    assert(mine.contains_key(s[j].0));
                }
            }
            assert forall|k: Seq<char>| #![trigger out@[k]]
                mine.contains_key(k) && !outs.contains_key(k) && !recipe.inputs@.contains_key(k)
                implies out@[k] == mine[k] by {
                let j = choose|j: int| 0 <= j < s.len() && s[j].0 == k;
                assert(kept.contains_key(k));
                if exists|j: int| 0 <= j < q && t[j].0 == k {
                    let j = choose|j: int| 0 <= j < q && t[j].0 == k;
                    assert(ins@.contains_key(t[j].0));
                }
                assert(out@.contains_key(k));
                assert(out@[k] == kept[k]);
            }
            assert forall|k: Seq<char>| #[trigger] recipe.inputs@.contains_key(k) implies input_amount.ensures(
                (recipe.inputs@[k], mine.get(k)), out@[k]) by {
                let j = choose|j: int| 0 <= j < t.len() && t[j].0 == k;
                assert(ins@[t[j].0] == t[j].1);
            }
        }
        Inventory { parts: out }
    }
}

} // verus!
