use vstd::prelude::*;
use vstd::string::*;
use crate::name_map::{lemma_list_map, list_map, NameMap};
use crate::part::{Part, State, UNKNOWN_SCORE};
use crate::recipe::{models, Recipe, RecipeModel};
use crate::ranking::{rank_insert, rank_sorted, rank_view};

verus! {

// ---------------------------------------------------------------------------
// Which parts exist, which are made by a recipe, and in which state they are.
// ---------------------------------------------------------------------------

/// A part that has just been created under the name `k`.
pub open spec fn is_new_part(k: Seq<char>, p: Part) -> bool {
    &&& p.name@ == k
    &&& p.state == State::Solid
    &&& p.atomic
    &&& p.sinkable
    &&& p.score == UNKNOWN_SCORE
}

/// The recipe consumes or produces the part `k`.
pub open spec fn uses<A>(r: RecipeModel<A>, k: Seq<char>) -> bool {
    list_map(r.inputs).contains_key(k) || list_map(r.outputs).contains_key(k)
}

/// One of the first `n` recipes consumes or produces the part `k`.
pub open spec fn mentioned<A>(rs: Seq<(Seq<char>, RecipeModel<A>)>, n: int, k: Seq<char>) -> bool {
    exists|j: int| 0 <= j < n && #[trigger] uses(rs[j].1, k)
}

/// One of the first `n` recipes produces the part `k`.
pub open spec fn produced<A>(rs: Seq<(Seq<char>, RecipeModel<A>)>, n: int, k: Seq<char>) -> bool {
    exists|j: int| 0 <= j < n && #[trigger] list_map(rs[j].1.outputs).contains_key(k)
}

/// The state of the part `k` once the recipe is known, if it was `s`: a
/// packager that fills two inputs, one of them an empty canister (or an
/// empty fluid tank), shows that the other input is a liquid (or a gas).
pub open spec fn packaged_state<A>(r: RecipeModel<A>, k: Seq<char>, s: State) -> State {
    if r.building == "Packager"@ && r.inputs.len() == 2 && list_map(r.inputs).contains_key(k) {
        let s1 = if list_map(r.inputs).contains_key("Empty Canister"@) && k != "Empty Canister"@ {
            State::Liquid
        } else {
            s
        };
        if list_map(r.inputs).contains_key("Empty Fluid Tank"@) && k != "Empty Fluid Tank"@ {
            State::Gas
        } else {
            s1
        }
    } else {
        s
    }
}

/// The state of the part `k` once the first `n` recipes are known, in order.
pub open spec fn state_after<A>(rs: Seq<(Seq<char>, RecipeModel<A>)>, n: int, k: Seq<char>, s: State) -> State
    decreases n,
{
    if n <= 0 {
        s
    } else {
        packaged_state(rs[n - 1].1, k, state_after(rs, n - 1, k, s))
    }
}

/// What the part `k` is once the first `n` recipes are known, starting from
/// the parts `p0`: its name, sinkability and score are kept (or those of a
/// new part), it stays atomic only if none of the recipes produces it, and
/// its state follows the recipes.
pub open spec fn collected<A>(p0: Map<Seq<char>, Part>, rs: Seq<(Seq<char>, RecipeModel<A>)>, n: int, k: Seq<char>, p: Part) -> bool {
    if p0.contains_key(k) {
        &&& p.name == p0[k].name
        &&& p.sinkable == p0[k].sinkable
        &&& p.score == p0[k].score
        &&& p.atomic == (p0[k].atomic && !produced(rs, n, k))
        &&& p.state == state_after(rs, n, k, p0[k].state)
    } else {
        &&& p.name@ == k
        &&& p.sinkable
        &&& p.score == UNKNOWN_SCORE
        &&& p.atomic == !produced(rs, n, k)
        &&& p.state == state_after(rs, n, k, State::Solid)
    }
}

/// Recipes that do not mention a part leave it as it was.
pub proof fn lemma_unmentioned<A>(rs: Seq<(Seq<char>, RecipeModel<A>)>, n: int, k: Seq<char>, s: State)
    requires
        0 <= n <= rs.len(),
        !mentioned(rs, n, k),
    ensures
        state_after(rs, n, k, s) == s,
        !produced(rs, n, k),
    decreases n,
{
    if n > 0 {
        assert(!uses(rs[n - 1].1, k));
        assert(!mentioned(rs, n - 1, k)) by {
            if mentioned(rs, n - 1, k) {
                let j = choose|j: int| 0 <= j < n - 1 && #[trigger] uses(rs[j].1, k);
                assert(uses(rs[j].1, k));
            }
        }
        lemma_unmentioned(rs, n - 1, k, s);
    }
    if produced(rs, n, k) {
        let j = choose|j: int| 0 <= j < n && #[trigger] list_map(rs[j].1.outputs).contains_key(k);
        assert(uses(rs[j].1, k));
    }
}

/// Puts `q` in place of the part named `name`.
fn set_part(parts: &mut NameMap<Part>, name: &str, q: Part)
    requires
        old(parts)@.contains_key(name@),
    ensures
        final(parts)@ == old(parts)@.insert(name@, q),
        final(parts).list().len() == old(parts).list().len(),
        forall|j: int| 0 <= j < old(parts).list().len() ==> #[trigger] final(parts).list()[j].0 == old(parts).list()[j].0,
        exists|i: int| 0 <= i < old(parts).list().len() && old(parts).list()[i].0 == name@
            && final(parts).list() == old(parts).list().update(i, (name@, q)),
{
    match parts.index_of(name) {
        Some(i) => {
            parts.replace_value_at(i, q);
            assert(old(parts).list()[i as int].0 == name@);
        },
        None => {},
    }
}

/// A copy of the part named `name`.
fn part_named(parts: &NameMap<Part>, name: &str) -> (p: Part)
    requires
        parts@.contains_key(name@),
    ensures
        p == parts@[name@],
{
    match parts.get(name) {
        Some(p) => p.clone(),
        None => Part::new(),
    }
}

/// Adds a new part for each name that has none.
fn add_missing<A>(parts: &mut NameMap<Part>, names: &NameMap<A>)
    ensures
        forall|k: Seq<char>| final(parts)@.contains_key(k) <==> (old(parts)@.contains_key(k) || names@.contains_key(k)),
        forall|k: Seq<char>| old(parts)@.contains_key(k) ==> final(parts)@[k] == old(parts)@[k],
        forall|k: Seq<char>| final(parts)@.contains_key(k) && !old(parts)@.contains_key(k) ==> is_new_part(k, final(parts)@[k]),
{
    proof {
        use_type_invariant(names);
        lemma_list_map(names.list());
    }
    let ghost p0 = parts@;
    let n = names.len();
    let mut i: usize = 0;
    while i < n
        invariant
            n == names.list().len(),
            i <= n,
            forall|k: Seq<char>| #[trigger] parts@.contains_key(k) <==> (p0.contains_key(k) || exists|j: int| 0 <= j < i && names.list()[j].0 == k),
            forall|k: Seq<char>| p0.contains_key(k) ==> parts@[k] == p0[k],
            forall|k: Seq<char>| parts@.contains_key(k) && !p0.contains_key(k) ==> is_new_part(k, parts@[k]),
        decreases n - i,
    {
        let name = names.key_at(i);
        let ghost before = parts@;
        if !parts.contains_key(name.as_str()) {
            let mut p = Part::new();
            p.name = name.clone();
            parts.insert(name.clone(), p);
        }
        assert(names.list()[i as int].0 == name@);
        assert forall|k: Seq<char>| parts@.contains_key(k) <==> (p0.contains_key(k) || exists|j: int| 0 <= j < i + 1 && names.list()[j].0 == k) by {
            if k == name@ {
                assert(names.list()[i as int].0 == k);
            } else if exists|j: int| 0 <= j < i + 1 && names.list()[j].0 == k {
                let j = choose|j: int| 0 <= j < i + 1 && names.list()[j].0 == k;
                assert(j < i);
                assert(before.contains_key(k));
            }
        }
        i = i + 1;
    }
}

/// Marks the parts named in `outputs` as made by a recipe.
fn mark_made<A>(parts: &mut NameMap<Part>, outputs: &NameMap<A>)
    requires
        forall|k: Seq<char>| outputs@.contains_key(k) ==> old(parts)@.contains_key(k),
    ensures
        final(parts)@.dom() == old(parts)@.dom(),
        forall|k: Seq<char>| #[trigger] old(parts)@.contains_key(k) ==> final(parts)@[k] == (if outputs@.contains_key(k) {
            Part { atomic: false, ..old(parts)@[k] }
        } else {
            old(parts)@[k]
        }),
{
    proof {
        use_type_invariant(outputs);
        lemma_list_map(outputs.list());
    }
    let ghost p0 = parts@;
    let n = outputs.len();
    let mut i: usize = 0;
    while i < n
        invariant
            n == outputs.list().len(),
            i <= n,
            forall|a: int, b: int| 0 <= a < n && 0 <= b < n && a != b ==> #[trigger] outputs.list()[a].0 != #[trigger] outputs.list()[b].0,
            forall|j: int| #![trigger outputs.list()[j]] 0 <= j < n ==> p0.contains_key(outputs.list()[j].0),
            parts@.dom() == p0.dom(),
            forall|k: Seq<char>| #[trigger] p0.contains_key(k) ==> parts@[k] == (if exists|j: int| 0 <= j < i && outputs.list()[j].0 == k {
                Part { atomic: false, ..p0[k] }
            } else {
                p0[k]
            }),
        decreases n - i,
    {
        let name = outputs.key_at(i);
        assert(outputs.list()[i as int].0 == name@);
        assert(!exists|j: int| 0 <= j < i && outputs.list()[j].0 == name@);
        let mut q = part_named(parts, name.as_str());
        q.atomic = false;
        set_part(parts, name.as_str(), q);
        i = i + 1;
    }
    proof {
        assert forall|k: Seq<char>| outputs@.contains_key(k) implies exists|j: int| 0 <= j < n && outputs.list()[j].0 == k by {}
    }
}

/// Gives the state `st` to every part named in `inputs` but `except`.
fn set_state_except<A>(parts: &mut NameMap<Part>, inputs: &NameMap<A>, except: &str, st: State)
    requires
        forall|k: Seq<char>| inputs@.contains_key(k) ==> old(parts)@.contains_key(k),
    ensures
        final(parts)@.dom() == old(parts)@.dom(),
        forall|k: Seq<char>| #[trigger] old(parts)@.contains_key(k) ==> final(parts)@[k] == (if inputs@.contains_key(k) && k != except@ {
            Part { state: st, ..old(parts)@[k] }
        } else {
            old(parts)@[k]
        }),
{
    proof {
        use_type_invariant(inputs);
        lemma_list_map(inputs.list());
    }
    let ghost p0 = parts@;
    let n = inputs.len();
    let mut i: usize = 0;
    while i < n
        invariant
            n == inputs.list().len(),
            i <= n,
            forall|a: int, b: int| 0 <= a < n && 0 <= b < n && a != b ==> #[trigger] inputs.list()[a].0 != #[trigger] inputs.list()[b].0,
            forall|j: int| #![trigger inputs.list()[j]] 0 <= j < n ==> p0.contains_key(inputs.list()[j].0),
            parts@.dom() == p0.dom(),
            forall|k: Seq<char>| #[trigger] p0.contains_key(k) ==> parts@[k] == (if k != except@ && exists|j: int| 0 <= j < i && inputs.list()[j].0 == k {
                Part { state: st, ..p0[k] }
            } else {
                p0[k]
            }),
        decreases n - i,
    {
        let name = inputs.key_at(i);
        assert(inputs.list()[i as int].0 == name@);
        assert(!exists|j: int| 0 <= j < i && inputs.list()[j].0 == name@);
        if crate::text::compare_text(name.as_str(), except) != crate::text::TextOrder::Equal {
            let mut q = part_named(parts, name.as_str());
            q.state = st;
            set_part(parts, name.as_str(), q);
        }
        i = i + 1;
    }
    proof {
        assert forall|k: Seq<char>| inputs@.contains_key(k) implies exists|j: int| 0 <= j < n && inputs.list()[j].0 == k by {}
    }
}

/// The part `k` once the recipe `r` is known, if it was `p`.
pub open spec fn recipe_effect<A>(r: RecipeModel<A>, k: Seq<char>, p: Part) -> Part {
    Part { atomic: p.atomic && !list_map(r.outputs).contains_key(k), state: packaged_state(r, k, p.state), ..p }
}

/// The part `k`, new when the recipe `r` mentions it, once `r` is known.
pub open spec fn new_effect<A>(r: RecipeModel<A>, k: Seq<char>, p: Part) -> bool {
    &&& p.name@ == k
    &&& p.sinkable
    &&& p.score == UNKNOWN_SCORE
    &&& p.atomic == !list_map(r.outputs).contains_key(k)
    &&& p.state == packaged_state(r, k, State::Solid)
}

proof fn lemma_step<A>(rs: Seq<(Seq<char>, RecipeModel<A>)>, i: int, k: Seq<char>)
    requires
        0 <= i < rs.len(),
    ensures
        produced(rs, i + 1, k) == (produced(rs, i, k) || list_map(rs[i].1.outputs).contains_key(k)),
        mentioned(rs, i + 1, k) == (mentioned(rs, i, k) || uses(rs[i].1, k)),
{
    if produced(rs, i + 1, k) && !list_map(rs[i].1.outputs).contains_key(k) {
        let j = choose|j: int| 0 <= j < i + 1 && #[trigger] list_map(rs[j].1.outputs).contains_key(k);
        assert(j < i);
    }
    if mentioned(rs, i + 1, k) && !uses(rs[i].1, k) {
        let j = choose|j: int| 0 <= j < i + 1 && #[trigger] uses(rs[j].1, k);
        assert(j < i);
    }
    if uses(rs[i].1, k) {
        assert(uses(rs[i].1, k));
    }
}

/// Takes note of what one recipe shows about the parts.
fn collect_recipe<A>(parts: &mut NameMap<Part>, r: &Recipe<A>)
    ensures
        forall|k: Seq<char>| #[trigger] final(parts)@.contains_key(k) <==> (old(parts)@.contains_key(k) || uses(r@, k)),
        forall|k: Seq<char>| #[trigger] old(parts)@.contains_key(k) ==> final(parts)@[k] == recipe_effect(r@, k, old(parts)@[k]),
        forall|k: Seq<char>| final(parts)@.contains_key(k) && !old(parts)@.contains_key(k) ==> new_effect(r@, k, #[trigger] final(parts)@[k]),
{
    let ghost p0 = parts@;
    add_missing(parts, &r.inputs);
    add_missing(parts, &r.outputs);
    let ghost p1 = parts@;
    mark_made(parts, &r.outputs);
    let ghost p2 = parts@;
    let packager = String::from_str("Packager");
    if r.building == packager && r.inputs.len() == 2 {
        if r.inputs.contains_key("Empty Canister") {
            set_state_except(parts, &r.inputs, "Empty Canister", State::Liquid);
        }
        if r.inputs.contains_key("Empty Fluid Tank") {
            set_state_except(parts, &r.inputs, "Empty Fluid Tank", State::Gas);
        }
    }
    assert forall|k: Seq<char>| #[trigger] p0.contains_key(k) implies parts@[k] == recipe_effect(r@, k, p0[k]) by {
        assert(p1[k] == p0[k]);
    }
    assert forall|k: Seq<char>| parts@.contains_key(k) && !p0.contains_key(k) implies new_effect(r@, k, #[trigger] parts@[k]) by {
        assert(p1.contains_key(k));
        assert(is_new_part(k, p1[k]));
    }
}

/// Takes note of what the recipes show about the parts, recipe by recipe.
fn collect_parts<A>(parts: &mut NameMap<Part>, recipes: &NameMap<Recipe<A>>)
    ensures
        forall|k: Seq<char>| #[trigger] final(parts)@.contains_key(k) <==> (old(parts)@.contains_key(k) || mentioned(models(recipes.list()), recipes.list().len() as int, k)),
        forall|k: Seq<char>| #[trigger] final(parts)@.contains_key(k) ==> collected(old(parts)@, models(recipes.list()), recipes.list().len() as int, k, final(parts)@[k]),
{
    let ghost p0 = parts@;
    let ghost rs = models(recipes.list());
    let n = recipes.len();
    let mut i: usize = 0;
    while i < n
        invariant
            n == rs.len(),
            rs == models(recipes.list()),
            i <= n,
            forall|k: Seq<char>| #[trigger] parts@.contains_key(k) <==> (p0.contains_key(k) || mentioned(rs, i as int, k)),
            forall|k: Seq<char>| #[trigger] parts@.contains_key(k) ==> collected(p0, rs, i as int, k, parts@[k]),
        decreases n - i,
    {
        let r = recipes.value_at(i);
        let ghost pi = parts@;
        collect_recipe(parts, r);
        assert forall|k: Seq<char>| #[trigger] parts@.contains_key(k) <==> (p0.contains_key(k) || mentioned(rs, i + 1, k)) by {
            lemma_step(rs, i as int, k);
        }
        assert forall|k: Seq<char>| #[trigger] parts@.contains_key(k) implies collected(p0, rs, i + 1, k, parts@[k]) by {
            lemma_step(rs, i as int, k);
            if pi.contains_key(k) {
                assert(collected(p0, rs, i as int, k, pi[k]));
            } else {
                lemma_unmentioned(rs, i as int, k, State::Solid);
            }
        }
        i = i + 1;
    }
}

// ---------------------------------------------------------------------------
// Scores.
// ---------------------------------------------------------------------------

/// A raw material needs no production step.
pub open spec fn zeroed(p: Part) -> Part {
    if p.atomic {
        Part { score: 0, ..p }
    } else {
        p
    }
}

/// Gives every atomic part the score 0.
fn zero_atomic_scores(parts: &mut NameMap<Part>)
    ensures
        final(parts)@.dom() == old(parts)@.dom(),
        forall|k: Seq<char>| #[trigger] old(parts)@.contains_key(k) ==> final(parts)@[k] == zeroed(old(parts)@[k]),
{
    let ghost p0 = parts@;
    let ghost l0 = parts.list();
    proof {
        use_type_invariant(&*parts);
        lemma_list_map(l0);
    }
    let n = parts.len();
    let mut i: usize = 0;
    while i < n
        invariant
            n == l0.len(),
            i <= n,
            parts.list().len() == n,
            forall|j: int| 0 <= j < n ==> #[trigger] parts.list()[j].0 == l0[j].0,
            forall|a: int, b: int| 0 <= a < n && 0 <= b < n && a != b ==> #[trigger] l0[a].0 != #[trigger] l0[b].0,
            forall|j: int| #![trigger l0[j]] 0 <= j < n ==> p0.contains_key(l0[j].0),
            forall|k: Seq<char>| #[trigger] p0.contains_key(k) ==> exists|j: int| 0 <= j < n && l0[j].0 == k,
            parts@.dom() == p0.dom(),
            forall|k: Seq<char>| #[trigger] p0.contains_key(k) ==> parts@[k] == (if exists|j: int| 0 <= j < i && l0[j].0 == k {
                zeroed(p0[k])
            } else {
                p0[k]
            }),
        decreases n - i,
    {
        proof {
            use_type_invariant(&*parts);
            lemma_list_map(parts.list());
        }
        let ghost k = l0[i as int].0;
        assert(parts.list()[i as int].0 == k);
        assert(!exists|j: int| 0 <= j < i && l0[j].0 == k);
        let p = parts.value_at(i).clone();
        assert(p == p0[k]);
        if p.atomic {
            let mut q = p;
            q.score = 0;
            parts.replace_value_at(i, q);
        }
        assert forall|k2: Seq<char>| #[trigger] p0.contains_key(k2) implies parts@[k2] == (if exists|j: int| 0 <= j < i + 1 && l0[j].0 == k2 {
            zeroed(p0[k2])
        } else {
            p0[k2]
        }) by {
            if k2 == k {
                assert(l0[i as int].0 == k2);
            } else if exists|j: int| 0 <= j < i + 1 && l0[j].0 == k2 {
                let j = choose|j: int| 0 <= j < i + 1 && l0[j].0 == k2;
                assert(j != i);
            }
        }
        i = i + 1;
    }
}

/// The scores of the parts, as a function of part names.
pub open spec fn score_of(m: Map<Seq<char>, Part>) -> spec_fn(Seq<char>) -> int {
    |k: Seq<char>| m[k].score as int
}

/// The largest value of `f` on the names in `s`, and 0 if there is none larger.
pub open spec fn max_over<A>(s: Seq<(Seq<char>, A)>, f: spec_fn(Seq<char>) -> int) -> int
    decreases s.len(),
{
    if s.len() == 0 {
        0
    } else {
        let m = max_over(s.drop_last(), f);
        let x = f(s.last().0);
        if x > m {
            x
        } else {
            m
        }
    }
}

/// A larger function has a larger maximum.
pub proof fn lemma_max_mono<A>(s: Seq<(Seq<char>, A)>, f: spec_fn(Seq<char>) -> int, g: spec_fn(Seq<char>) -> int)
    requires
        forall|j: int| 0 <= j < s.len() ==> f(#[trigger] s[j].0) <= g(s[j].0),
    ensures
        max_over(s, f) <= max_over(s, g),
    decreases s.len(),
{
    if s.len() > 0 {
        let t = s.drop_last();
        assert forall|j: int| 0 <= j < t.len() implies f(#[trigger] t[j].0) <= g(t[j].0) by {
            assert(t[j] == s[j]);
        }
        lemma_max_mono(t, f, g);
        assert(s.last() == s[s.len() - 1]);
    }
}

/// The maximum lies between 0 and any bound on the values.
pub proof fn lemma_max_bounds<A>(s: Seq<(Seq<char>, A)>, f: spec_fn(Seq<char>) -> int, hi: int)
    requires
        0 <= hi,
        forall|j: int| 0 <= j < s.len() ==> f(#[trigger] s[j].0) <= hi,
    ensures
        0 <= max_over(s, f) <= hi,
    decreases s.len(),
{
    if s.len() > 0 {
        let t = s.drop_last();
        assert forall|j: int| 0 <= j < t.len() implies f(#[trigger] t[j].0) <= hi by {
            assert(t[j] == s[j]);
        }
        lemma_max_bounds(t, f, hi);
        assert(s.last() == s[s.len() - 1]);
    }
}

/// The maximum is at least each value.
pub proof fn lemma_max_ge<A>(s: Seq<(Seq<char>, A)>, f: spec_fn(Seq<char>) -> int, j: int)
    requires
        0 <= j < s.len(),
    ensures
        f(s[j].0) <= max_over(s, f),
    decreases s.len(),
{
    if j < s.len() - 1 {
        let t = s.drop_last();
        assert(t[j] == s[j]);
        lemma_max_ge(t, f, j);
    }
}

/// Largest score among the inputs.
fn max_input_score<A>(parts: &NameMap<Part>, inputs: &NameMap<A>) -> (m: i32)
    requires
        forall|k: Seq<char>| inputs@.contains_key(k) ==> #[trigger] parts@.contains_key(k) && 0 <= parts@[k].score <= UNKNOWN_SCORE,
    ensures
        m == max_over(inputs.list(), score_of(parts@)),
        0 <= m <= UNKNOWN_SCORE,
{
    proof {
        use_type_invariant(inputs);
        lemma_list_map(inputs.list());
    }
    let n = inputs.len();
    let mut m: i32 = 0;
    let mut i: usize = 0;
    while i < n
        invariant
            n == inputs.list().len(),
            i <= n,
            forall|j: int| #![trigger inputs.list()[j]] 0 <= j < n ==> parts@.contains_key(inputs.list()[j].0)
                && 0 <= parts@[inputs.list()[j].0].score <= UNKNOWN_SCORE,
            m == max_over(inputs.list().take(i as int), score_of(parts@)),
            0 <= m <= UNKNOWN_SCORE,
        decreases n - i,
    {
        let name = inputs.key_at(i);
        let score = part_named(parts, name.as_str()).score;
        assert(inputs.list().take(i + 1).drop_last() =~= inputs.list().take(i as int));
        assert(inputs.list().take(i + 1).last() == inputs.list()[i as int]);
        if score > m {
            m = score;
        }
        i = i + 1;
    }
    assert(inputs.list().take(n as int) =~= inputs.list());
    m
}

/// The sum of the scores of the parts in a list.
pub open spec fn score_total(s: Seq<(Seq<char>, Part)>) -> int
    decreases s.len(),
{
    if s.len() == 0 {
        0
    } else {
        score_total(s.drop_last()) + s.last().1.score
    }
}

proof fn lemma_total_update(s: Seq<(Seq<char>, Part)>, i: int, e: (Seq<char>, Part))
    requires
        0 <= i < s.len(),
    ensures
        score_total(s.update(i, e)) == score_total(s) - s[i].1.score + e.1.score,
    decreases s.len(),
{
    let u = s.update(i, e);
    if i < s.len() - 1 {
        assert(u.drop_last() =~= s.drop_last().update(i, e));
        lemma_total_update(s.drop_last(), i, e);
    } else {
        assert(u.drop_last() =~= s.drop_last());
    }
}

proof fn lemma_total_nonneg(s: Seq<(Seq<char>, Part)>)
    requires
        forall|j: int| 0 <= j < s.len() ==> 0 <= #[trigger] s[j].1.score,
    ensures
        score_total(s) >= 0,
    decreases s.len(),
{
    if s.len() > 0 {
        let t = s.drop_last();
        assert forall|j: int| 0 <= j < t.len() implies 0 <= #[trigger] t[j].1.score by {
            assert(t[j] == s[j]);
        }
        lemma_total_nonneg(t);
        assert(s.last() == s[s.len() - 1]);
    }
}

/// Each output of the recipe scores at most one more than the largest score
/// of its inputs.
pub open spec fn recipe_ok<A>(r: RecipeModel<A>, f: spec_fn(Seq<char>) -> int) -> bool {
    forall|o: Seq<char>| #[trigger] list_map(r.outputs).contains_key(o) ==> f(o) <= 1 + max_over(r.inputs, f)
}

/// Every recipe is fine with the scores `f`.
pub open spec fn consistent<A>(rs: Seq<(Seq<char>, RecipeModel<A>)>, f: spec_fn(Seq<char>) -> int) -> bool {
    forall|j: int| 0 <= j < rs.len() ==> #[trigger] recipe_ok(rs[j].1, f)
}

/// `f` is at least `t` on the parts of `start`.
pub open spec fn dominates(start: Map<Seq<char>, Part>, f: spec_fn(Seq<char>) -> int, t: spec_fn(Seq<char>) -> int) -> bool {
    forall|k: Seq<char>| #[trigger] start.contains_key(k) ==> t(k) <= f(k)
}

/// The scores `t` are consistent with the recipes and no score exceeds the
/// one it started from.
pub open spec fn admissible<A>(rs: Seq<(Seq<char>, RecipeModel<A>)>, start: Map<Seq<char>, Part>, t: spec_fn(Seq<char>) -> int) -> bool {
    &&& dominates(start, score_of(start), t)
    &&& consistent(rs, t)
}

/// `f` is at least every admissible scoring.
pub open spec fn greatest<A>(rs: Seq<(Seq<char>, RecipeModel<A>)>, start: Map<Seq<char>, Part>, f: spec_fn(Seq<char>) -> int) -> bool {
    forall|t: spec_fn(Seq<char>) -> int| #[trigger] admissible(rs, start, t) ==> dominates(start, f, t)
}

/// `now` is `start` with some scores lowered, none below 0.
pub open spec fn lowered(start: Map<Seq<char>, Part>, now: Map<Seq<char>, Part>) -> bool {
    &&& now.dom() == start.dom()
    &&& forall|k: Seq<char>| #[trigger] start.contains_key(k) ==> now[k] == Part { score: now[k].score, ..start[k] } && 0
        <= now[k].score <= start[k].score
}

/// Every part that a recipe uses is known.
pub open spec fn all_used_known<A>(rs: Seq<(Seq<char>, RecipeModel<A>)>, m: Map<Seq<char>, Part>) -> bool {
    forall|j: int, k: Seq<char>| 0 <= j < rs.len() && #[trigger] uses(rs[j].1, k) ==> m.contains_key(k)
}

/// Lowers the scores of the parts until every recipe is fine with them: each
/// output scores at most one more than the largest score of the recipe's
/// inputs.  The result is the largest such scoring under the starting scores.
fn settle_scores<A>(parts: &mut NameMap<Part>, recipes: &NameMap<Recipe<A>>)
    requires
        all_used_known(models(recipes.list()), old(parts)@),
        forall|k: Seq<char>| #[trigger] old(parts)@.contains_key(k) ==> 0 <= old(parts)@[k].score <= UNKNOWN_SCORE,
    ensures
        lowered(old(parts)@, final(parts)@),
        consistent(models(recipes.list()), score_of(final(parts)@)),
        greatest(models(recipes.list()), old(parts)@, score_of(final(parts)@)),
{
    let ghost start = parts@;
    let ghost rs = models(recipes.list());
    let n = recipes.len();
    loop
        invariant
            n == rs.len(),
            rs == models(recipes.list()),
            all_used_known(rs, start),
            forall|k: Seq<char>| #[trigger] start.contains_key(k) ==> 0 <= start[k].score <= UNKNOWN_SCORE,
            lowered(start, parts@),
            greatest(rs, start, score_of(parts@)),
        ensures
            consistent(rs, score_of(parts@)),
        decreases score_total(parts.list()),
    {
        let ghost pass = parts@;
        let ghost pass_list = parts.list();
        proof {
            use_type_invariant(&*parts);
            lemma_list_map(parts.list());
            lemma_total_nonneg(parts.list());
        }
        let mut change = false;
        let mut i: usize = 0;
        while i < n
            invariant
                n == rs.len(),
                rs == models(recipes.list()),
                all_used_known(rs, start),
                forall|k: Seq<char>| #[trigger] start.contains_key(k) ==> 0 <= start[k].score <= UNKNOWN_SCORE,
                lowered(start, parts@),
                greatest(rs, start, score_of(parts@)),
                i <= n,
                !change ==> parts.list() == pass_list && parts@ == pass,
                !change ==> forall|j: int| 0 <= j < i ==> #[trigger] recipe_ok(rs[j].1, score_of(parts@)),
                change ==> score_total(parts.list()) < score_total(pass_list),
            decreases n - i,
        {
            let r = recipes.value_at(i);
            assert(r@ == rs[i as int].1);
            assert forall|k: Seq<char>| r.inputs@.contains_key(k) implies #[trigger] parts@.contains_key(k) && 0 <= parts@[k].score <= UNKNOWN_SCORE by {
                assert(uses(rs[i as int].1, k));
                assert(start.contains_key(k));
                assert(parts@.dom().contains(k));
            }
            let max_input = max_input_score(&*parts, &r.inputs);
            let m = max_input + 1;
            let ghost before = parts@;
            proof {
                use_type_invariant(&r.outputs);
                lemma_list_map(r.outputs.list());
                use_type_invariant(&r.inputs);
                lemma_list_map(r.inputs.list());
            }
            let no = r.outputs.len();
            let mut o: usize = 0;
            while o < no
                invariant
                    n == rs.len(),
                    rs == models(recipes.list()),
                    i < n,
                    r@ == rs[i as int].1,
                    no == r.outputs.list().len(),
                    o <= no,
                    all_used_known(rs, start),
                    forall|k: Seq<char>| #[trigger] start.contains_key(k) ==> 0 <= start[k].score <= UNKNOWN_SCORE,
                    lowered(start, parts@),
                    greatest(rs, start, score_of(parts@)),
                    m == 1 + max_over(r.inputs.list(), score_of(before)),
                    1 <= m <= UNKNOWN_SCORE + 1,
                    forall|t: spec_fn(Seq<char>) -> int| #[trigger] admissible(rs, start, t) ==> dominates(start, score_of(before), t),
                    forall|j: int| #![trigger r.outputs.list()[j]] 0 <= j < no ==> r.outputs@.contains_key(r.outputs.list()[j].0),
                    forall|j: int| #![trigger r.inputs.list()[j]] 0 <= j < r.inputs.list().len() ==> r.inputs@.contains_key(r.inputs.list()[j].0),
                    forall|j: int| #![trigger r.outputs.list()[j]] 0 <= j < o ==> parts@[r.outputs.list()[j].0].score <= m,
                    !change ==> parts.list() == pass_list && parts@ == pass && before == pass,
                    !change ==> forall|j: int| 0 <= j < i ==> #[trigger] recipe_ok(rs[j].1, score_of(parts@)),
                    change ==> score_total(parts.list()) < score_total(pass_list),
                decreases no - o,
            {
                let name = r.outputs.key_at(o);
                assert(uses(rs[i as int].1, name@));
                let p = part_named(parts, name.as_str());
                if m < p.score {
                    let ghost old_parts = parts@;
                    let ghost old_list = parts.list();
                    proof {
                        use_type_invariant(&*parts);
                        lemma_list_map(old_list);
                    }
                    let mut q = p;
                    q.score = m;
                    set_part(parts, name.as_str(), q);
                    change = true;
                    proof {
                        let idx = choose|idx: int| 0 <= idx < old_list.len() && old_list[idx].0 == name@
                            && parts.list() == old_list.update(idx, (name@, q));
                        lemma_total_update(old_list, idx, (name@, q));
                        assert(old_list[idx].1 == old_parts[name@]);
                        assert(parts@.dom() =~= start.dom());
                        assert forall|k: Seq<char>| #[trigger] start.contains_key(k) implies parts@[k] == Part { score: parts@[k].score, ..start[k] } && 0
                            <= parts@[k].score <= start[k].score by {
                            if k != name@ {
                                assert(parts@[k] == old_parts[k]);
                            }
                        }
                        assert forall|t: spec_fn(Seq<char>) -> int| #[trigger] admissible(rs, start, t) implies dominates(start, score_of(parts@), t) by {
                            assert(dominates(start, score_of(old_parts), t));
                            assert(dominates(start, score_of(before), t));
                            assert(recipe_ok(rs[i as int].1, t));
                            assert forall|j: int| 0 <= j < r.inputs.list().len() implies t(#[trigger] r.inputs.list()[j].0) <= score_of(before)(r.inputs.list()[j].0) by {
                                assert(uses(rs[i as int].1, r.inputs.list()[j].0));
                            }
                            lemma_max_mono(r.inputs.list(), t, score_of(before));
                        }
                        assert forall|j: int| #![trigger r.outputs.list()[j]] 0 <= j < o + 1 implies parts@[r.outputs.list()[j].0].score <= m by {
                            if r.outputs.list()[j].0 != name@ {
                                assert(old_parts[r.outputs.list()[j].0] == parts@[r.outputs.list()[j].0]);
                            }
                        }
                    }
                }
                o = o + 1;
            }
            proof {
                if !change {
                    assert(recipe_ok(rs[i as int].1, score_of(parts@))) by {
                        assert forall|k: Seq<char>| #[trigger] list_map(rs[i as int].1.outputs).contains_key(k) implies score_of(parts@)(k) <= 1 + max_over(rs[i as int].1.inputs, score_of(parts@)) by {
                            let j = choose|j: int| 0 <= j < no && r.outputs.list()[j].0 == k;
                            assert(parts@[r.outputs.list()[j].0].score <= m);
                        }
                    }
                    assert forall|j: int| 0 <= j < i + 1 implies #[trigger] recipe_ok(rs[j].1, score_of(parts@)) by {}
                }
            }
            i = i + 1;
        }
        if !change {
            assert(consistent(rs, score_of(parts@)));
            break;
        }
        proof {
            use_type_invariant(&*parts);
            lemma_list_map(parts.list());
            assert forall|j: int| 0 <= j < parts.list().len() implies 0 <= #[trigger] parts.list()[j].1.score by {
                assert(start.contains_key(parts.list()[j].0));
            }
            lemma_total_nonneg(parts.list());
        }
    }
}

/// The scores of the parts plus one: the steps needed to make something from them.
pub open spec fn succ_score(m: Map<Seq<char>, Part>) -> spec_fn(Seq<char>) -> int {
    |k: Seq<char>| m[k].score as int + 1
}

/// The score of a recipe: one more than the largest score of its inputs, and
/// 0 for a recipe without inputs.
pub open spec fn recipe_score<A>(r: RecipeModel<A>, m: Map<Seq<char>, Part>) -> int {
    max_over(r.inputs, succ_score(m))
}

/// `new` is `old` with the score it gets from the parts `m`.
pub open spec fn rescored<A>(new: RecipeModel<A>, old: RecipeModel<A>, m: Map<Seq<char>, Part>) -> bool {
    &&& new == RecipeModel { score: new.score, ..old }
    &&& new.score == recipe_score(old, m)
}

/// The ranking entry of a recipe scored with the parts `m`.
pub open spec fn rank_entry<A>(r: RecipeModel<A>, m: Map<Seq<char>, Part>) -> (int, Seq<char>) {
    (recipe_score(r, m), r.name)
}

/// The score of a recipe with the given inputs.
fn inputs_score<A>(parts: &NameMap<Part>, inputs: &NameMap<A>) -> (m: i32)
    requires
        forall|k: Seq<char>| inputs@.contains_key(k) ==> #[trigger] parts@.contains_key(k) && 0 <= parts@[k].score <= UNKNOWN_SCORE,
    ensures
        m == max_over(inputs.list(), succ_score(parts@)),
        0 <= m <= UNKNOWN_SCORE + 1,
{
    proof {
        use_type_invariant(inputs);
        lemma_list_map(inputs.list());
    }
    let n = inputs.len();
    let mut m: i32 = 0;
    let mut i: usize = 0;
    while i < n
        invariant
            n == inputs.list().len(),
            i <= n,
            forall|j: int| #![trigger inputs.list()[j]] 0 <= j < n ==> parts@.contains_key(inputs.list()[j].0)
                && 0 <= parts@[inputs.list()[j].0].score <= UNKNOWN_SCORE,
            m == max_over(inputs.list().take(i as int), succ_score(parts@)),
            0 <= m <= UNKNOWN_SCORE + 1,
        decreases n - i,
    {
        let name = inputs.key_at(i);
        let score = part_named(parts, name.as_str()).score + 1;
        assert(inputs.list().take(i + 1).drop_last() =~= inputs.list().take(i as int));
        assert(inputs.list().take(i + 1).last() == inputs.list()[i as int]);
        if score > m {
            m = score;
        }
        i = i + 1;
    }
    assert(inputs.list().take(n as int) =~= inputs.list());
    m
}

/// Gives every recipe its score and adds it to the ranking by score and name.
fn score_recipes<A>(recipes: &mut NameMap<Recipe<A>>, parts: &NameMap<Part>, ranking: &mut Vec<(i32, String)>)
    requires
        all_used_known(models(old(recipes).list()), parts@),
        forall|k: Seq<char>| #[trigger] parts@.contains_key(k) ==> 0 <= parts@[k].score <= UNKNOWN_SCORE,
        rank_sorted(rank_view(old(ranking)@)),
    ensures
        recipes_scored(models(old(recipes).list()), parts@, models(final(recipes).list())),
        ranked(models(old(recipes).list()), parts@, rank_view(old(ranking)@), rank_view(final(ranking)@)),
{
    let ghost l0 = models(recipes.list());
    let ghost k0 = rank_view(ranking@);
    let n = recipes.len();
    let mut i: usize = 0;
    while i < n
        invariant
            n == l0.len(),
            i <= n,
            all_used_known(l0, parts@),
            forall|k: Seq<char>| #[trigger] parts@.contains_key(k) ==> 0 <= parts@[k].score <= UNKNOWN_SCORE,
            recipes.list().len() == n,
            forall|j: int| 0 <= j < n ==> #[trigger] models(recipes.list())[j].0 == l0[j].0,
            forall|j: int| i <= j < n ==> #[trigger] models(recipes.list())[j].1 == l0[j].1,
            forall|j: int| 0 <= j < i ==> rescored(#[trigger] models(recipes.list())[j].1, l0[j].1, parts@),
            rank_sorted(rank_view(ranking@)),
            forall|x: (int, Seq<char>)| #[trigger] rank_view(ranking@).contains(x) <==> (k0.contains(x)
                || exists|j: int| 0 <= j < i && x == #[trigger] rank_entry(l0[j].1, parts@)),
        decreases n - i,
    {
        let r = recipes.value_at(i);
        assert(models(recipes.list())[i as int].1 == r@);
        assert forall|k: Seq<char>| r.inputs@.contains_key(k) implies #[trigger] parts@.contains_key(k) && 0 <= parts@[k].score <= UNKNOWN_SCORE by {
            assert(uses(l0[i as int].1, k));
        }
        let score = inputs_score(parts, &r.inputs);
        let name = r.name.clone();
        let ghost before = rank_view(ranking@);
        let ghost before_list = recipes.list();
        let mut taken = recipes.replace_value_at(i, Recipe::new());
        taken.score = score;
        let ghost t = taken;
        recipes.replace_value_at(i, taken);
        assert(recipes.list() == before_list.update(i as int, (before_list[i as int].0, t)));
        assert(models(before_list)[i as int] == (before_list[i as int].0, before_list[i as int].1@));
        assert(models(before_list)[i as int].0 == l0[i as int].0);
        assert(models(recipes.list())[i as int] == (recipes.list()[i as int].0, recipes.list()[i as int].1@));
        assert(models(recipes.list())[i as int] == (l0[i as int].0, t@));
        assert forall|j: int| 0 <= j < n && j != i implies #[trigger] models(recipes.list())[j] == models(before_list)[j] by {
            assert(models(before_list)[j] == (before_list[j].0, before_list[j].1@));
            assert(models(recipes.list())[j] == (recipes.list()[j].0, recipes.list()[j].1@));
        }
        rank_insert(ranking, score, name);
        assert forall|x: (int, Seq<char>)| rank_view(ranking@).contains(x) <==> (k0.contains(x)
            || exists|j: int| 0 <= j < i + 1 && x == #[trigger] rank_entry(l0[j].1, parts@)) by {
            if exists|j: int| 0 <= j < i + 1 && x == #[trigger] rank_entry(l0[j].1, parts@) {
                let j = choose|j: int| 0 <= j < i + 1 && x == #[trigger] rank_entry(l0[j].1, parts@);
                if j < i {
                    assert(before.contains(x));
                }
            }
            if x == rank_entry(l0[i as int].1, parts@) {
                assert(exists|j: int| 0 <= j < i + 1 && x == #[trigger] rank_entry(l0[j].1, parts@));
            }
        }
        i = i + 1;
    }
}

// ---------------------------------------------------------------------------
// The whole derivation.
// ---------------------------------------------------------------------------

/// The score that the part `k` starts from before scores are settled: 0 for a
/// raw material, else its earlier score or, for a new part, the unknown score.
pub open spec fn cap_score(p0: Map<Seq<char>, Part>, k: Seq<char>, p: Part) -> int {
    if p.atomic {
        0
    } else if p0.contains_key(k) {
        p0[k].score as int
    } else {
        UNKNOWN_SCORE as int
    }
}

/// The parts `p` with the scores that they start from.
pub open spec fn capped(p0: Map<Seq<char>, Part>, p: Map<Seq<char>, Part>) -> Map<Seq<char>, Part> {
    Map::new(|k: Seq<char>| p.contains_key(k), |k: Seq<char>| Part { score: cap_score(p0, k, p[k]) as i32, ..p[k] })
}

/// The score that the part `k` had, or the unknown score for a new part.
pub open spec fn base_score(p0: Map<Seq<char>, Part>, k: Seq<char>) -> i32 {
    if p0.contains_key(k) {
        p0[k].score
    } else {
        UNKNOWN_SCORE
    }
}

/// What the parts `p` are once derived from the recipes `rs` and the parts
/// `p0` known before: every part that a recipe uses is there; names,
/// sinkability, atomicity and states are as `collected` says; the scores are
/// the largest that the recipes are consistent with, none above its start.
pub open spec fn parts_derived<A>(rs: Seq<(Seq<char>, RecipeModel<A>)>, p0: Map<Seq<char>, Part>, p: Map<Seq<char>, Part>) -> bool {
    &&& forall|k: Seq<char>| #[trigger] p.contains_key(k) <==> (p0.contains_key(k) || mentioned(rs, rs.len() as int, k))
    &&& forall|k: Seq<char>| #[trigger] p.contains_key(k) ==> collected(p0, rs, rs.len() as int, k, Part { score: base_score(p0, k), ..p[k] })
        && 0 <= p[k].score <= cap_score(p0, k, p[k])
    &&& consistent(rs, score_of(p))
    &&& greatest(rs, capped(p0, p), score_of(p))
}

/// What the recipes `rs` are once scored with the parts `p`.
pub open spec fn recipes_scored<A>(rs: Seq<(Seq<char>, RecipeModel<A>)>, p: Map<Seq<char>, Part>, new: Seq<(Seq<char>, RecipeModel<A>)>) -> bool {
    &&& new.len() == rs.len()
    &&& forall|i: int| 0 <= i < rs.len() ==> #[trigger] new[i].0 == rs[i].0 && rescored(new[i].1, rs[i].1, p)
}

/// The ranking `k0` with an entry added for every recipe of `rs`.
pub open spec fn ranked<A>(rs: Seq<(Seq<char>, RecipeModel<A>)>, p: Map<Seq<char>, Part>, k0: Seq<(int, Seq<char>)>, k: Seq<(int, Seq<char>)>) -> bool {
    &&& rank_sorted(k)
    &&& forall|x: (int, Seq<char>)| #[trigger] k.contains(x) <==> (k0.contains(x)
        || exists|i: int| 0 <= i < rs.len() && x == #[trigger] rank_entry(rs[i].1, p))
}

/// Derives the parts from the recipes, settles their scores, scores the
/// recipes and ranks them.
pub(crate) fn derive_all<A>(parts: &mut NameMap<Part>, recipes: &mut NameMap<Recipe<A>>, ranking: &mut Vec<(i32, String)>)
    requires
        forall|k: Seq<char>| #[trigger] old(parts)@.contains_key(k) ==> 0 <= old(parts)@[k].score <= UNKNOWN_SCORE,
        rank_sorted(rank_view(old(ranking)@)),
    ensures
        parts_derived(models(old(recipes).list()), old(parts)@, final(parts)@),
        recipes_scored(models(old(recipes).list()), final(parts)@, models(final(recipes).list())),
        ranked(models(old(recipes).list()), final(parts)@, rank_view(old(ranking)@), rank_view(final(ranking)@)),
        forall|k: Seq<char>| #[trigger] final(parts)@.contains_key(k) ==> 0 <= final(parts)@[k].score <= UNKNOWN_SCORE,
{
    let ghost p0 = parts@;
    let ghost rs = models(recipes.list());
    let ghost n = rs.len() as int;
    collect_parts(parts, recipes);
    let ghost pa = parts@;
    zero_atomic_scores(parts);
    let ghost pb = parts@;
    assert(all_used_known(rs, pb)) by {
        assert forall|j: int, k: Seq<char>| 0 <= j < rs.len() && #[trigger] uses(rs[j].1, k) implies pb.contains_key(k) by {
            assert(mentioned(rs, n, k));
            assert(pa.contains_key(k));
        }
    }
    assert forall|k: Seq<char>| #[trigger] pb.contains_key(k) implies 0 <= pb[k].score <= UNKNOWN_SCORE by {
        assert(pa.contains_key(k));
        assert(collected(p0, rs, n, k, pa[k]));
    }
    settle_scores(parts, recipes);
    let ghost pc = parts@;
    assert(capped(p0, pc) =~= pb) by {
        assert forall|k: Seq<char>| #[trigger] pb.contains_key(k) implies capped(p0, pc)[k] == pb[k] by {
            assert(pa.contains_key(k));
            assert(collected(p0, rs, n, k, pa[k]));
        }
    }
    assert forall|k: Seq<char>| #[trigger] pc.contains_key(k) implies collected(p0, rs, n, k, Part { score: base_score(p0, k), ..pc[k] })
        && 0 <= pc[k].score <= cap_score(p0, k, pc[k]) by {
        assert(pa.contains_key(k));
        assert(collected(p0, rs, n, k, pa[k]));
    }
    assert forall|k: Seq<char>| #[trigger] parts@.contains_key(k) implies 0 <= parts@[k].score <= UNKNOWN_SCORE by {
        assert(pb.contains_key(k));
    }
    score_recipes(recipes, parts, ranking);
}

} // verus!
