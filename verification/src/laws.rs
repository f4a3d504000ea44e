use vstd::prelude::*;
use crate::derivation::{
    admissible, base_score, cap_score, capped, collected, consistent, dominates, greatest, lemma_max_ge, lemma_max_mono, max_over, mentioned, packaged_state, parts_derived, produced,
    rank_entry, ranked, recipe_ok, recipe_score, recipes_scored, score_of, state_after, succ_score, uses,
};
use crate::manager::{derived_from, RecipeManager};
use crate::name_map::{lemma_list_insert, lemma_list_map_has, list_map, sorted_keys};
use crate::load::{duplicate_message, finish_recipe, load_step, Entry, LoadState, Side};
use crate::part::{state_letter, Part, State, UNKNOWN_SCORE};
use crate::ranking::{rank_lt, rank_sorted};
use crate::recipe::{models, RecipeModel};
use crate::text::{lemma_lex_irreflexive, lemma_lex_total, lex_lt};

verus! {

/// A raw material costs nothing: once the parts are derived, every atomic
/// part scores 0.
pub proof fn law_raw_materials_score_zero<A>(
    rs: Seq<(Seq<char>, RecipeModel<A>)>,
    p0: Map<Seq<char>, Part>,
    k0: Seq<(int, Seq<char>)>,
    m: RecipeManager<A>,
    k: Seq<char>,
)
    requires
        derived_from(rs, p0, k0, m),
        m.part_map()@.contains_key(k),
        m.part_map()@[k].atomic,
    ensures
        m.part_map()@[k].score == 0,
{
}

/// A recipe costs one step more than each of its inputs.
pub proof fn law_recipe_above_inputs<A>(
    rs: Seq<(Seq<char>, RecipeModel<A>)>,
    p0: Map<Seq<char>, Part>,
    k0: Seq<(int, Seq<char>)>,
    m: RecipeManager<A>,
    i: int,
    k: Seq<char>,
)
    requires
        derived_from(rs, p0, k0, m),
        0 <= i < rs.len(),
        list_map(rs[i].1.inputs).contains_key(k),
    ensures
        m.part_map()@.contains_key(k),
        models(m.recipe_map().list())[i].1.score >= m.part_map()@[k].score + 1,
{
    assert(uses(rs[i].1, k));
    assert(mentioned(rs, rs.len() as int, k));
    lemma_list_map_has(rs[i].1.inputs, k);
    let j = choose|j: int| 0 <= j < rs[i].1.inputs.len() && rs[i].1.inputs[j].0 == k;
    lemma_max_ge(rs[i].1.inputs, succ_score(m.part_map()@), j);
    assert(models(m.recipe_map().list())[i].0 == rs[i].0);
}

/// With all values at least 0, the largest value plus one is the largest of
/// the values plus one.
proof fn lemma_max_succ<A>(s: Seq<(Seq<char>, A)>, p: Map<Seq<char>, Part>)
    requires
        s.len() > 0,
        forall|j: int| 0 <= j < s.len() ==> 0 <= #[trigger] p[s[j].0].score,
    ensures
        max_over(s, succ_score(p)) == 1 + max_over(s, score_of(p)),
    decreases s.len(),
{
    let t = s.drop_last();
    assert(s.last() == s[s.len() - 1]);
    let x = s.last().0;
    assert(0 <= p[s[s.len() - 1].0].score);
    assert(succ_score(p)(x) == score_of(p)(x) + 1);
    if t.len() > 0 {
        assert forall|j: int| 0 <= j < t.len() implies 0 <= #[trigger] p[t[j].0].score by {
            assert(t[j] == s[j]);
        }
        lemma_max_succ(t, p);
    }
}

/// What a recipe with inputs makes costs no more than the recipe itself.
pub proof fn law_outputs_within_recipe<A>(
    rs: Seq<(Seq<char>, RecipeModel<A>)>,
    p0: Map<Seq<char>, Part>,
    k0: Seq<(int, Seq<char>)>,
    m: RecipeManager<A>,
    i: int,
    o: Seq<char>,
)
    requires
        derived_from(rs, p0, k0, m),
        0 <= i < rs.len(),
        rs[i].1.inputs.len() > 0,
        list_map(rs[i].1.outputs).contains_key(o),
    ensures
        m.part_map()@.contains_key(o),
        m.part_map()@[o].score <= models(m.recipe_map().list())[i].1.score,
{
    let p = m.part_map()@;
    let ins = rs[i].1.inputs;
    assert(uses(rs[i].1, o));
    assert(mentioned(rs, rs.len() as int, o));
    assert(recipe_ok(rs[i].1, score_of(p)));
    assert forall|j: int| 0 <= j < ins.len() implies 0 <= #[trigger] p[ins[j].0].score by {
        assert(list_map(ins).contains_key(ins[j].0)) by {
            lemma_list_map_index(ins, j);
        }
        assert(uses(rs[i].1, ins[j].0));
        assert(mentioned(rs, rs.len() as int, ins[j].0));
        assert(p.contains_key(ins[j].0));
    }
    lemma_max_succ(ins, p);
    assert(models(m.recipe_map().list())[i].0 == rs[i].0);
}

/// Every entry of a list is found in the list's map.
proof fn lemma_list_map_index<V>(s: Seq<(Seq<char>, V)>, j: int)
    requires
        0 <= j < s.len(),
    ensures
        list_map(s).contains_key(s[j].0),
    decreases s.len(),
{
    if j > 0 {
        lemma_list_map_index(s.drop_first(), j - 1);
        assert(s.drop_first()[j - 1] == s[j]);
    }
}

/// `rs1` is `rs0` with other recipe scores and nothing else changed.
pub open spec fn rescored_only<A>(rs0: Seq<(Seq<char>, RecipeModel<A>)>, rs1: Seq<(Seq<char>, RecipeModel<A>)>) -> bool {
    &&& rs1.len() == rs0.len()
    &&& forall|i: int| #![trigger rs1[i]] 0 <= i < rs0.len() ==> rs1[i].0 == rs0[i].0 && rs1[i].1 == RecipeModel {
        score: rs1[i].1.score,
        ..rs0[i].1
    }
}

/// Recipe scores play no part in which parts recipes use or in their states.
proof fn lemma_rescored_only<A>(rs0: Seq<(Seq<char>, RecipeModel<A>)>, rs1: Seq<(Seq<char>, RecipeModel<A>)>, n: int, k: Seq<char>, s: State)
    requires
        rescored_only(rs0, rs1),
        0 <= n <= rs0.len(),
    ensures
        mentioned(rs1, n, k) == mentioned(rs0, n, k),
        produced(rs1, n, k) == produced(rs0, n, k),
        state_after(rs1, n, k, s) == state_after(rs0, n, k, s),
    decreases n,
{
    assert forall|j: int| 0 <= j < n implies #[trigger] uses(rs1[j].1, k) == uses(rs0[j].1, k)
        && list_map(rs1[j].1.outputs).contains_key(k) == list_map(rs0[j].1.outputs).contains_key(k) by {
        assert(rs1[j].1.inputs == rs0[j].1.inputs);
    }
    if mentioned(rs1, n, k) {
        let j = choose|j: int| 0 <= j < n && #[trigger] uses(rs1[j].1, k);
        assert(uses(rs0[j].1, k));
    }
    if mentioned(rs0, n, k) {
        let j = choose|j: int| 0 <= j < n && #[trigger] uses(rs0[j].1, k);
        assert(uses(rs1[j].1, k));
    }
    if produced(rs1, n, k) {
        let j = choose|j: int| 0 <= j < n && #[trigger] list_map(rs1[j].1.outputs).contains_key(k);
        assert(list_map(rs0[j].1.outputs).contains_key(k));
    }
    if produced(rs0, n, k) {
        let j = choose|j: int| 0 <= j < n && #[trigger] list_map(rs0[j].1.outputs).contains_key(k);
        assert(list_map(rs1[j].1.outputs).contains_key(k));
    }
    if n > 0 {
        lemma_rescored_only(rs0, rs1, n - 1, k, s);
        assert(rs1[n - 1].1.inputs == rs0[n - 1].1.inputs);
        assert(rs1[n - 1].1.building == rs0[n - 1].1.building);
    }
}

/// What the first `n` recipes do to the state of the part `k`: nothing, or
/// settle it.
pub open spec fn state_effect<A>(rs: Seq<(Seq<char>, RecipeModel<A>)>, n: int, k: Seq<char>) -> Option<State>
    decreases n,
{
    if n <= 0 {
        None
    } else {
        let r = rs[n - 1].1;
        let prev = state_effect(rs, n - 1, k);
        if r.building == "Packager"@ && r.inputs.len() == 2 && list_map(r.inputs).contains_key(k) {
            if list_map(r.inputs).contains_key("Empty Fluid Tank"@) && k != "Empty Fluid Tank"@ {
                Some(State::Gas)
            } else if list_map(r.inputs).contains_key("Empty Canister"@) && k != "Empty Canister"@ {
                Some(State::Liquid)
            } else {
                prev
            }
        } else {
            prev
        }
    }
}

proof fn lemma_state_effect<A>(rs: Seq<(Seq<char>, RecipeModel<A>)>, n: int, k: Seq<char>, s: State)
    ensures
        state_after(rs, n, k, s) == match state_effect(rs, n, k) {
            Some(c) => c,
            None => s,
        },
    decreases n,
{
    if n > 0 {
        lemma_state_effect(rs, n - 1, k, s);
    }
}

proof fn lemma_rank_asymmetric(x: (int, Seq<char>), y: (int, Seq<char>))
    ensures
        !(rank_lt(x, y) && rank_lt(y, x)),
        !rank_lt(x, x),
{
    lemma_lex_total(x.1, y.1);
    lemma_lex_irreflexive(x.1);
}

/// Two rankings with the same entries are the same.
proof fn lemma_rank_unique(a: Seq<(int, Seq<char>)>, b: Seq<(int, Seq<char>)>)
    requires
        rank_sorted(a),
        rank_sorted(b),
        forall|x: (int, Seq<char>)| a.contains(x) <==> b.contains(x),
    ensures
        a == b,
    decreases a.len(),
{
    if a.len() == 0 {
        if b.len() > 0 {
            assert(b.contains(b[0]));
        }
        assert(a =~= b);
    } else {
        assert(a.contains(a[0]));
        let j = choose|j: int| 0 <= j < b.len() && b[j] == a[0];
        assert(b.contains(b[0]));
        let i = choose|i: int| 0 <= i < a.len() && a[i] == b[0];
        lemma_rank_asymmetric(a[0], b[0]);
        if j > 0 {
            assert(rank_lt(b[0], a[0]));
            if i > 0 {
                assert(rank_lt(a[0], b[0]));
            }
        }
        assert(a[0] == b[0]);
        let ta = a.drop_first();
        let tb = b.drop_first();
        assert forall|x: (int, Seq<char>)| ta.contains(x) <==> tb.contains(x) by {
            if ta.contains(x) {
                let p = choose|p: int| 0 <= p < ta.len() && ta[p] == x;
                assert(a[p + 1] == x);
                assert(rank_lt(a[0], x));
                lemma_rank_asymmetric(x, x);
                assert(a.contains(x));
                let q = choose|q: int| 0 <= q < b.len() && b[q] == x;
                assert(q != 0);
                assert(tb[q - 1] == x);
            }
            if tb.contains(x) {
                let p = choose|p: int| 0 <= p < tb.len() && tb[p] == x;
                assert(b[p + 1] == x);
                assert(rank_lt(b[0], x));
                lemma_rank_asymmetric(x, x);
                assert(b.contains(x));
                let q = choose|q: int| 0 <= q < a.len() && a[q] == x;
                assert(q != 0);
                assert(ta[q - 1] == x);
            }
        }
        assert(rank_sorted(ta)) by {
            assert forall|p: int, q: int| 0 <= p < q < ta.len() implies rank_lt(ta[p], ta[q]) by {
                assert(ta[p] == a[p + 1] && ta[q] == a[q + 1]);
            }
        }
        assert(rank_sorted(tb)) by {
            assert forall|p: int, q: int| 0 <= p < q < tb.len() implies rank_lt(tb[p], tb[q]) by {
                assert(tb[p] == b[p + 1] && tb[q] == b[q + 1]);
            }
        }
        lemma_rank_unique(ta, tb);
        assert forall|p: int| 0 < p < a.len() implies a[p] == b[p] by {
            assert(a[p] == ta[p - 1]);
            assert(b[p] == tb[p - 1]);
        }
        assert(a =~= b);
    }
}

/// Deriving again what was just derived changes nothing: the parts, the
/// recipes and the ranking stay as they are.
pub proof fn law_derive_again<A>(
    rs0: Seq<(Seq<char>, RecipeModel<A>)>,
    p0: Map<Seq<char>, Part>,
    k0: Seq<(int, Seq<char>)>,
    m1: RecipeManager<A>,
    m2: RecipeManager<A>,
)
    requires
        derived_from(rs0, p0, k0, m1),
        derived_from(models(m1.recipe_map().list()), m1.part_map()@, m1.ranking(), m2),
    ensures
        m2.part_map()@ == m1.part_map()@,
        models(m2.recipe_map().list()) == models(m1.recipe_map().list()),
        m2.ranking() == m1.ranking(),
{
    let rs1 = models(m1.recipe_map().list());
    let p1 = m1.part_map()@;
    let p2 = m2.part_map()@;
    let n = rs0.len() as int;
    assert(rs1.len() == n);
    assert forall|i: int| #![trigger rs1[i]] 0 <= i < rs0.len() implies rs1[i].0 == rs0[i].0 && rs1[i].1 == RecipeModel {
        score: rs1[i].1.score,
        ..rs0[i].1
    } by {
        assert(rs1[i].0 == rs0[i].0);
    }
    assert(rescored_only(rs0, rs1));
    // The same parts, with the same fields but scores.
    assert forall|k: Seq<char>| #[trigger] p2.contains_key(k) <==> p1.contains_key(k) by {
        lemma_rescored_only(rs0, rs1, n, k, State::Solid);
    }
    assert forall|k: Seq<char>| #[trigger] p1.contains_key(k) implies p2[k] == Part { score: p2[k].score, ..p1[k] } by {
        lemma_rescored_only(rs0, rs1, n, k, p1[k].state);
        assert(p2.contains_key(k));
        assert(collected(p1, rs1, n, k, Part { score: crate::derivation::base_score(p1, k), ..p2[k] }));
        assert(collected(p0, rs0, n, k, Part { score: crate::derivation::base_score(p0, k), ..p1[k] }));
        let s0 = if p0.contains_key(k) {
            p0[k].state
        } else {
            State::Solid
        };
        lemma_state_effect(rs0, n, k, s0);
        lemma_state_effect(rs0, n, k, state_after(rs0, n, k, s0));
    }
    // The old scores are consistent with the recipes, so they are not above the new ones.
    assert(consistent(rs1, score_of(p1))) by {
        assert forall|j: int| 0 <= j < rs1.len() implies #[trigger] recipe_ok(rs1[j].1, score_of(p1)) by {
            assert(recipe_ok(rs0[j].1, score_of(p1)));
            assert(rs1[j].1.inputs == rs0[j].1.inputs);
            assert(rs1[j].1.outputs == rs0[j].1.outputs);
        }
    }
    let c = capped(p1, p2);
    assert forall|k: Seq<char>| #[trigger] c.contains_key(k) implies score_of(p1)(k) <= score_of(c)(k) by {
        assert(p1.contains_key(k));
        assert(p2[k].atomic == p1[k].atomic);
    }
    assert(crate::derivation::admissible(rs1, c, score_of(p1)));
    assert forall|k: Seq<char>| #[trigger] p1.contains_key(k) implies p2[k].score == p1[k].score by {
        assert(c.contains_key(k));
        assert(p2[k].atomic == p1[k].atomic);
    }
    assert(p2 =~= p1) by {
        assert forall|k: Seq<char>| #[trigger] p1.contains_key(k) implies p2[k] == p1[k] by {
            assert(p2[k] == Part { score: p2[k].score, ..p1[k] });
        }
    }
    // The recipes get the scores they had.
    let r2 = models(m2.recipe_map().list());
    assert(r2 =~= rs1) by {
        assert forall|i: int| 0 <= i < rs1.len() implies #[trigger] r2[i] == rs1[i] by {
            assert(rs1[i].1.inputs == rs0[i].1.inputs);
            assert(recipe_score(rs1[i].1, p2) == recipe_score(rs0[i].1, p1));
        }
    }
    // The ranking gains no entry it lacked.
    assert forall|x: (int, Seq<char>)| m2.ranking().contains(x) <==> m1.ranking().contains(x) by {
        if exists|i: int| 0 <= i < rs1.len() && x == #[trigger] rank_entry(rs1[i].1, p2) {
            let i = choose|i: int| 0 <= i < rs1.len() && x == #[trigger] rank_entry(rs1[i].1, p2);
            assert(rs1[i].1.inputs == rs0[i].1.inputs);
            assert(rank_entry(rs0[i].1, p1) == x);
        }
    }
    lemma_rank_unique(m2.ranking(), m1.ranking());
}

/// Recipes are ranked by score first: along the ranking scores never
/// decrease, and among recipes of equal score the names increase.
pub proof fn law_ranking_by_score_then_name<A>(
    rs: Seq<(Seq<char>, RecipeModel<A>)>,
    p0: Map<Seq<char>, Part>,
    k0: Seq<(int, Seq<char>)>,
    m: RecipeManager<A>,
    i: int,
    j: int,
)
    requires
        derived_from(rs, p0, k0, m),
        0 <= i < j < m.ranking().len(),
    ensures
        m.ranking()[i].0 <= m.ranking()[j].0,
        m.ranking()[i].0 == m.ranking()[j].0 ==> lex_lt(m.ranking()[i].1, m.ranking()[j].1),
{
    assert(rank_lt(m.ranking()[i], m.ranking()[j]));
}

/// An ingredient line goes to the side it is marked with; an unmarked one
/// goes to the outputs when the recipe has no output yet, whatever inputs
/// were read before it, and to the inputs otherwise.  The other side, the
/// name, the building and the recipes filed so far stay as they were.
pub proof fn law_ingredient_side<A>(
    st: LoadState<A>,
    side: Side,
    text: String,
    part: String,
    amount: A,
    building: Seq<char>,
)
    requires
        sorted_keys(st.current.outputs),
        sorted_keys(st.current.inputs),
    ensures
        load_step(st, Entry::Ingredient { side, text, part, amount }, building) matches Ok(next)
            && next.recipes == st.recipes
            && next.current.name == st.current.name
            && next.current.building == st.current.building
            && next.current.score == st.current.score
            && if side == Side::Output || (side == Side::Unmarked && st.current.outputs.len() == 0) {
                list_map(next.current.outputs) == list_map(st.current.outputs).insert(part@, amount)
                    && next.current.inputs == st.current.inputs
            } else {
                list_map(next.current.inputs) == list_map(st.current.inputs).insert(part@, amount)
                    && next.current.outputs == st.current.outputs
            },
{
    lemma_list_insert(st.current.outputs, part@, amount);
    lemma_list_insert(st.current.inputs, part@, amount);
}

/// Deriving never changes whether a part can be sunk, and a part that
/// deriving creates can be sunk.
pub proof fn law_sinkable_kept<A>(
    rs: Seq<(Seq<char>, RecipeModel<A>)>,
    p0: Map<Seq<char>, Part>,
    k0: Seq<(int, Seq<char>)>,
    m: RecipeManager<A>,
    k: Seq<char>,
)
    requires
        derived_from(rs, p0, k0, m),
        m.part_map()@.contains_key(k),
    ensures
        m.part_map()@[k].sinkable == (!p0.contains_key(k) || p0[k].sinkable),
{
}

/// Each state has its own letter: `S` for a solid, `L` for a liquid, `G`
/// for a gas.
pub proof fn law_state_letters(s: State)
    ensures
        (state_letter(s) == 'S') == (s == State::Solid),
        (state_letter(s) == 'L') == (s == State::Liquid),
        (state_letter(s) == 'G') == (s == State::Gas),
{
}

/// The parts after deriving are exactly those held before and those that
/// some recipe consumes or produces.
pub proof fn law_parts_are_those_used<A>(
    rs: Seq<(Seq<char>, RecipeModel<A>)>,
    p0: Map<Seq<char>, Part>,
    k0: Seq<(int, Seq<char>)>,
    m: RecipeManager<A>,
    k: Seq<char>,
)
    requires
        derived_from(rs, p0, k0, m),
    ensures
        m.part_map()@.contains_key(k) <==> (p0.contains_key(k) || exists|i: int| 0 <= i < rs.len()
            && (list_map(rs[i].1.inputs).contains_key(k) || list_map(rs[i].1.outputs).contains_key(k))),
{
    if exists|i: int| 0 <= i < rs.len() && (list_map(rs[i].1.inputs).contains_key(k) || list_map(rs[i].1.outputs).contains_key(k)) {
        let i = choose|i: int| 0 <= i < rs.len() && (list_map(rs[i].1.inputs).contains_key(k) || list_map(rs[i].1.outputs).contains_key(k));
        assert(uses(rs[i].1, k));
        assert(mentioned(rs, rs.len() as int, k));
    }
    if mentioned(rs, rs.len() as int, k) {
        let i = choose|i: int| 0 <= i < rs.len() && #[trigger] uses(rs[i].1, k);
        assert(list_map(rs[i].1.inputs).contains_key(k) || list_map(rs[i].1.outputs).contains_key(k));
    }
}

/// A part is a raw material exactly when it was one before (or is new) and
/// no recipe produces it.
pub proof fn law_atomic_iff_unmade<A>(
    rs: Seq<(Seq<char>, RecipeModel<A>)>,
    p0: Map<Seq<char>, Part>,
    k0: Seq<(int, Seq<char>)>,
    m: RecipeManager<A>,
    k: Seq<char>,
)
    requires
        derived_from(rs, p0, k0, m),
        m.part_map()@.contains_key(k),
    ensures
        m.part_map()@[k].atomic == ((!p0.contains_key(k) || p0[k].atomic)
            && !exists|i: int| 0 <= i < rs.len() && list_map(rs[i].1.outputs).contains_key(k)),
{
    if exists|i: int| 0 <= i < rs.len() && list_map(rs[i].1.outputs).contains_key(k) {
        let i = choose|i: int| 0 <= i < rs.len() && list_map(rs[i].1.outputs).contains_key(k);
        assert(produced(rs, rs.len() as int, k));
    }
    if produced(rs, rs.len() as int, k) {
        let i = choose|i: int| 0 <= i < rs.len() && #[trigger] list_map(rs[i].1.outputs).contains_key(k);
        assert(list_map(rs[i].1.outputs).contains_key(k));
    }
}

/// Recipes that do not fill the part `k` in a packager leave its state alone.
proof fn lemma_state_unpackaged<A>(rs: Seq<(Seq<char>, RecipeModel<A>)>, n: int, k: Seq<char>, s: State)
    requires
        0 <= n <= rs.len(),
        forall|i: int| 0 <= i < rs.len() ==> !(rs[i].1.building == "Packager"@ && #[trigger] list_map(rs[i].1.inputs).contains_key(k)),
    ensures
        state_after(rs, n, k, s) == s,
    decreases n,
{
    if n > 0 {
        assert(!(rs[n - 1].1.building == "Packager"@ && list_map(rs[n - 1].1.inputs).contains_key(k)));
        lemma_state_unpackaged(rs, n - 1, k, s);
    }
}

/// A part that no packager recipe takes as an input keeps its state; a new
/// such part is a solid.
pub proof fn law_state_without_packager<A>(
    rs: Seq<(Seq<char>, RecipeModel<A>)>,
    p0: Map<Seq<char>, Part>,
    k0: Seq<(int, Seq<char>)>,
    m: RecipeManager<A>,
    k: Seq<char>,
)
    requires
        derived_from(rs, p0, k0, m),
        m.part_map()@.contains_key(k),
        forall|i: int| 0 <= i < rs.len() ==> !(rs[i].1.building == "Packager"@ && #[trigger] list_map(rs[i].1.inputs).contains_key(k)),
    ensures
        m.part_map()@[k].state == if p0.contains_key(k) { p0[k].state } else { State::Solid },
{
    lemma_state_unpackaged(rs, rs.len() as int, k, if p0.contains_key(k) { p0[k].state } else { State::Solid });
}

/// With all values at least 1, the largest value is one of them.
proof fn lemma_max_attained<A>(s: Seq<(Seq<char>, A)>, p: Map<Seq<char>, Part>)
    requires
        s.len() > 0,
        forall|j: int| 0 <= j < s.len() ==> 0 <= #[trigger] p[s[j].0].score,
    ensures
        exists|j: int| 0 <= j < s.len() && max_over(s, succ_score(p)) == p[s[j].0].score + 1,
    decreases s.len(),
{
    let t = s.drop_last();
    let last = s.len() - 1;
    assert(s.last() == s[last]);
    if t.len() > 0 {
        assert forall|j: int| 0 <= j < t.len() implies 0 <= #[trigger] p[t[j].0].score by {
            assert(t[j] == s[j]);
        }
        lemma_max_attained(t, p);
        let j = choose|j: int| 0 <= j < t.len() && max_over(t, succ_score(p)) == p[t[j].0].score + 1;
        assert(t[j] == s[j]);
        if max_over(s, succ_score(p)) != max_over(t, succ_score(p)) {
            assert(max_over(s, succ_score(p)) == p[s[last].0].score + 1);
        }
    } else {
        assert(0 <= p[s[last].0].score);
        assert(max_over(s, succ_score(p)) == p[s[last].0].score + 1);
    }
}

/// A recipe without inputs scores 0; a recipe with inputs scores one more
/// than one of its inputs (and, by `law_recipe_above_inputs`, at least one
/// more than each of them).
pub proof fn law_recipe_score_attained<A>(
    rs: Seq<(Seq<char>, RecipeModel<A>)>,
    p0: Map<Seq<char>, Part>,
    k0: Seq<(int, Seq<char>)>,
    m: RecipeManager<A>,
    i: int,
)
    requires
        derived_from(rs, p0, k0, m),
        0 <= i < rs.len(),
    ensures
        rs[i].1.inputs.len() == 0 ==> models(m.recipe_map().list())[i].1.score == 0,
        rs[i].1.inputs.len() > 0 ==> exists|j: int| 0 <= j < rs[i].1.inputs.len()
            && models(m.recipe_map().list())[i].1.score == m.part_map()@[rs[i].1.inputs[j].0].score + 1,
{
    let p = m.part_map()@;
    let ins = rs[i].1.inputs;
    let new = models(m.recipe_map().list());
    assert(new[i].0 == rs[i].0);
    assert(new[i].1.score == max_over(ins, succ_score(p)));
    if ins.len() > 0 {
        assert forall|j: int| 0 <= j < ins.len() implies 0 <= #[trigger] p[ins[j].0].score by {
            lemma_list_map_index(ins, j);
            assert(uses(rs[i].1, ins[j].0));
            assert(mentioned(rs, rs.len() as int, ins[j].0));
            assert(p.contains_key(ins[j].0));
        }
        lemma_max_attained(ins, p);
    }
}

/// Completing a recipe that has ingredients: a recipe without a name takes
/// the name of its only output, and is refused when it has not exactly one;
/// a recipe that names no building gets the default one; a name already
/// filed is refused; otherwise the recipe is filed under its name.  A recipe
/// with neither name nor ingredients is dropped.
pub proof fn law_finish_recipe<A>(
    recipes: Seq<(Seq<char>, RecipeModel<A>)>,
    cur: RecipeModel<A>,
    building: Seq<char>,
)
    requires
        sorted_keys(recipes),
    ensures
        ({
            let has_ingredients = cur.inputs.len() > 0 || cur.outputs.len() > 0;
            let name = if cur.name.len() == 0 && has_ingredients && cur.outputs.len() == 1 {
                cur.outputs[0].0
            } else {
                cur.name
            };
            let b = if cur.building.len() == 0 { building } else { cur.building };
            let filed = RecipeModel { name: name, building: b, ..cur };
            if cur.name.len() == 0 && has_ingredients && cur.outputs.len() != 1 {
                finish_recipe(recipes, cur, building) == Err::<Seq<(Seq<char>, RecipeModel<A>)>, Seq<char>>("no name for recipe"@)
            } else if name.len() == 0 {
                finish_recipe(recipes, cur, building) == Ok::<Seq<(Seq<char>, RecipeModel<A>)>, Seq<char>>(recipes)
            } else if list_map(recipes).contains_key(name) {
                finish_recipe(recipes, cur, building) == Err::<Seq<(Seq<char>, RecipeModel<A>)>, Seq<char>>(duplicate_message(name))
            } else {
                finish_recipe(recipes, cur, building) matches Ok(rs)
                    && sorted_keys(rs)
                    && list_map(rs) == list_map(recipes).insert(name, filed)
            }
        }),
{
    let has_ingredients = cur.inputs.len() > 0 || cur.outputs.len() > 0;
    let name = if cur.name.len() == 0 && has_ingredients && cur.outputs.len() == 1 {
        cur.outputs[0].0
    } else {
        cur.name
    };
    let b = if cur.building.len() == 0 { building } else { cur.building };
    let filed = RecipeModel { name: name, building: b, ..cur };
    lemma_list_insert(recipes, name, filed);
}

/// Recipes after the `m`-th that do not fill `k` in a packager leave its
/// state as the first `m` recipes made it.
proof fn lemma_state_tail<A>(rs: Seq<(Seq<char>, RecipeModel<A>)>, m: int, n: int, k: Seq<char>, s: State)
    requires
        0 <= m <= n <= rs.len(),
        forall|j: int| m <= j < rs.len() ==> !(rs[j].1.building == "Packager"@ && #[trigger] list_map(rs[j].1.inputs).contains_key(k)),
    ensures
        state_after(rs, n, k, s) == state_after(rs, m, k, s),
    decreases n,
{
    if n > m {
        assert(!(rs[n - 1].1.building == "Packager"@ && list_map(rs[n - 1].1.inputs).contains_key(k)));
        lemma_state_tail(rs, m, n - 1, k, s);
    }
}

/// A packager recipe that fills the part `k` into an empty canister (two
/// inputs: `k` and "Empty Canister") shows that `k` is a liquid; one that
/// fills it into an empty fluid tank shows that it is a gas.  The last such
/// recipe, in order of recipe names, decides.
pub proof fn law_packager_state<A>(
    rs: Seq<(Seq<char>, RecipeModel<A>)>,
    p0: Map<Seq<char>, Part>,
    k0: Seq<(int, Seq<char>)>,
    m: RecipeManager<A>,
    i: int,
    k: Seq<char>,
)
    requires
        derived_from(rs, p0, k0, m),
        0 <= i < rs.len(),
        rs[i].1.building == "Packager"@,
        rs[i].1.inputs.len() == 2,
        list_map(rs[i].1.inputs).contains_key(k),
        forall|j: int| i < j < rs.len() ==> !(rs[j].1.building == "Packager"@ && #[trigger] list_map(rs[j].1.inputs).contains_key(k)),
    ensures
        m.part_map()@.contains_key(k),
        k != "Empty Fluid Tank"@ && list_map(rs[i].1.inputs).contains_key("Empty Fluid Tank"@)
            ==> m.part_map()@[k].state == State::Gas,
        k != "Empty Canister"@ && list_map(rs[i].1.inputs).contains_key("Empty Canister"@)
            && !list_map(rs[i].1.inputs).contains_key("Empty Fluid Tank"@)
            ==> m.part_map()@[k].state == State::Liquid,
{
    assert(uses(rs[i].1, k));
    assert(mentioned(rs, rs.len() as int, k));
    let s0 = if p0.contains_key(k) { p0[k].state } else { State::Solid };
    let p = m.part_map()@;
    assert(p.contains_key(k));
    assert(collected(p0, rs, rs.len() as int, k, Part { score: base_score(p0, k), ..p[k] }));
    assert(p[k].state == state_after(rs, rs.len() as int, k, s0));
    lemma_state_tail(rs, i + 1, rs.len() as int, k, s0);
    assert(state_after(rs, i + 1, k, s0) == packaged_state(rs[i].1, k, state_after(rs, i, k, s0)));
}

/// A part whose score went below where it started scores exactly one more
/// than the largest score among the inputs of some recipe that makes it:
/// scores only go down as far as a recipe takes them.
pub proof fn law_lowered_score_attained<A>(
    rs: Seq<(Seq<char>, RecipeModel<A>)>,
    p0: Map<Seq<char>, Part>,
    k0: Seq<(int, Seq<char>)>,
    m: RecipeManager<A>,
    k: Seq<char>,
)
    requires
        derived_from(rs, p0, k0, m),
        m.part_map()@.contains_key(k),
        m.part_map()@[k].score < (if m.part_map()@[k].atomic {
            0
        } else if p0.contains_key(k) {
            p0[k].score as int
        } else {
            UNKNOWN_SCORE as int
        }),
    ensures
        exists|i: int| 0 <= i < rs.len() && list_map(rs[i].1.outputs).contains_key(k)
            && m.part_map()@[k].score == 1 + max_over(rs[i].1.inputs, score_of(m.part_map()@)),
{
    let p = m.part_map()@;
    let f = score_of(p);
    if !exists|i: int| 0 <= i < rs.len() && list_map(rs[i].1.outputs).contains_key(k)
        && p[k].score == 1 + max_over(rs[i].1.inputs, f) {
        let t = |x: Seq<char>| if x == k { p[k].score + 1 } else { p[x].score as int };
        let start = capped(p0, p);
        assert forall|x: Seq<char>| #[trigger] start.contains_key(x) implies t(x) <= score_of(start)(x) by {
            assert(p.contains_key(x));
            assert(0 <= p[x].score <= cap_score(p0, x, p[x]));
        }
        assert forall|j: int| 0 <= j < rs.len() implies #[trigger] recipe_ok(rs[j].1, t) by {
            let ins = rs[j].1.inputs;
            assert forall|q: int| 0 <= q < ins.len() implies f(#[trigger] ins[q].0) <= t(ins[q].0) by {}
            lemma_max_mono(ins, f, t);
            assert(recipe_ok(rs[j].1, f));
            assert forall|o: Seq<char>| #[trigger] list_map(rs[j].1.outputs).contains_key(o) implies t(o) <= 1 + max_over(ins, t) by {
                assert(f(o) <= 1 + max_over(ins, f));
                if o == k {
                    assert(p[k].score != 1 + max_over(ins, f));
                }
            }
        }
        assert(admissible(rs, start, t));
        assert(dominates(start, f, t));
        assert(start.contains_key(k));
        assert(t(k) <= f(k));
    }
}

/// What a recipe makes scores at most one more than the largest score among
/// the recipe's inputs (at most 1 for a recipe without inputs).
pub proof fn law_made_part_bound<A>(
    rs: Seq<(Seq<char>, RecipeModel<A>)>,
    p0: Map<Seq<char>, Part>,
    k0: Seq<(int, Seq<char>)>,
    m: RecipeManager<A>,
    i: int,
    o: Seq<char>,
)
    requires
        derived_from(rs, p0, k0, m),
        0 <= i < rs.len(),
        list_map(rs[i].1.outputs).contains_key(o),
    ensures
        m.part_map()@.contains_key(o),
        m.part_map()@[o].score <= 1 + max_over(rs[i].1.inputs, score_of(m.part_map()@)),
        rs[i].1.inputs.len() == 0 ==> m.part_map()@[o].score <= 1,
{
    assert(uses(rs[i].1, o));
    assert(mentioned(rs, rs.len() as int, o));
    assert(recipe_ok(rs[i].1, score_of(m.part_map()@)));
}

/// A `#` line names the recipe being read and an `@` line gives its
/// building, leaving everything else; a line that could not be read stops
/// reading with its error.
pub proof fn law_entry_effects<A>(st: LoadState<A>, e: Entry<A>, building: Seq<char>)
    ensures
        e matches Entry::Name(n) ==> (load_step(st, e, building) matches Ok(next) && next.recipes == st.recipes
            && next.current.name == n@ && next.current.building == st.current.building
            && next.current.outputs == st.current.outputs && next.current.inputs == st.current.inputs),
        e matches Entry::Building(b) ==> (load_step(st, e, building) matches Ok(next) && next.recipes == st.recipes
            && next.current.building == b@ && next.current.name == st.current.name
            && next.current.outputs == st.current.outputs && next.current.inputs == st.current.inputs),
        e matches Entry::Rejected(err) ==> load_step(st, e, building) == Err::<LoadState<A>, Seq<char>>(err.message()),
{
}

} // verus!
