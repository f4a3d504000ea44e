use vstd::prelude::*;
use crate::text::{compare_text, lemma_lex_irreflexive, lemma_lex_total, lemma_lex_transitive, lex_lt, TextOrder};

verus! {

/// The order of `(score, name)` pairs: by score, then by name.
pub open spec fn rank_lt(a: (int, Seq<char>), b: (int, Seq<char>)) -> bool {
    a.0 < b.0 || (a.0 == b.0 && lex_lt(a.1, b.1))
}

/// The pairs strictly increase.
pub open spec fn rank_sorted(s: Seq<(int, Seq<char>)>) -> bool {
    forall|i: int, j: int| 0 <= i < j < s.len() ==> rank_lt(s[i], s[j])
}

/// The pairs of a ranking, with scores as integers and names as character sequences.
pub open spec fn rank_view(v: Seq<(i32, String)>) -> Seq<(int, Seq<char>)> {
    v.map_values(|e: (i32, String)| (e.0 as int, e.1@))
}

proof fn lemma_rank_transitive(a: (int, Seq<char>), b: (int, Seq<char>), c: (int, Seq<char>))
    requires
        rank_lt(a, b),
        rank_lt(b, c),
    ensures
        rank_lt(a, c),
{
    if a.0 == b.0 && b.0 == c.0 {
        lemma_lex_transitive(a.1, b.1, c.1);
    }
}

/// In a sorted ranking, scores never decrease, and names increase among
/// entries of equal score.
pub proof fn lemma_sorted_entries(v: Seq<(i32, String)>)
    requires
        rank_sorted(rank_view(v)),
    ensures
        forall|i: int, j: int| #![trigger v[i], v[j]] 0 <= i < j < v.len() ==> v[i].0 <= v[j].0
            && (v[i].0 == v[j].0 ==> lex_lt(v[i].1@, v[j].1@)),
{
    let s = rank_view(v);
    assert forall|i: int, j: int| #![trigger v[i], v[j]] 0 <= i < j < v.len() implies v[i].0 <= v[j].0
        && (v[i].0 == v[j].0 ==> lex_lt(v[i].1@, v[j].1@)) by {
        assert(s[i] == (v[i].0 as int, v[i].1@));
        assert(s[j] == (v[j].0 as int, v[j].1@));
        assert(rank_lt(s[i], s[j]));
        assert(v[i].0 <= v[j].0);
    }
}

/// Adds `(score, name)` to a ranking, keeping it sorted; a pair already there
/// stays once.
pub fn rank_insert(v: &mut Vec<(i32, String)>, score: i32, name: String)
    requires
        rank_sorted(rank_view(old(v)@)),
    ensures
        rank_sorted(rank_view(final(v)@)),
        forall|i: int, j: int| 0 <= i < j < final(v)@.len() ==> final(v)@[i].0 <= final(v)@[j].0
            && (final(v)@[i].0 == final(v)@[j].0 ==> lex_lt(final(v)@[i].1@, final(v)@[j].1@)),
        forall|x: (int, Seq<char>)| rank_view(final(v)@).contains(x) <==> (rank_view(old(v)@).contains(x) || x == (score as int, name@)),
{
    let ghost s = rank_view(v@);
    let ghost key = (score as int, name@);
    let n = v.len();
    let mut i: usize = 0;
    let mut found = false;
    while i < n
        invariant_except_break
            !found,
        invariant
            n == v@.len(),
            s == rank_view(v@),
            rank_sorted(s),
            key == (score as int, name@),
            i <= n,
            forall|j: int| 0 <= j < i ==> rank_lt(#[trigger] s[j], key),
        ensures
            i <= n,
            forall|j: int| 0 <= j < i ==> rank_lt(#[trigger] s[j], key),
            i < n ==> !rank_lt(s[i as int], key),
            found == (i < n && s[i as int] == key),
        decreases n - i,
    {
        let entry = &v[i];
        let e_score: i32 = entry.0;
        assert(*entry == v@[i as int]);
        assert(s[i as int] == (v@[i as int].0 as int, v@[i as int].1@));
        if e_score < score {
            i = i + 1;
        } else if e_score > score {
            break;
        } else {
            let o = compare_text(v[i].1.as_str(), name.as_str());
            if o == TextOrder::Less {
                i = i + 1;
            } else {
                if o == TextOrder::Equal {
                    found = true;
                }
                break;
            }
        }
    }
    if found {
        proof {
            lemma_sorted_entries(v@);
        }
        return;
    }
    let ghost nv = name@;
    v.insert(i, (score, name));
    assert(rank_view(v@) =~= s.insert(i as int, key));
    proof {
        let t = rank_view(v@);
        if i < n {
            lemma_lex_total(s[i as int].1, nv);
            assert(rank_lt(key, s[i as int]));
        }
        assert forall|a: int, b: int| 0 <= a < b < t.len() implies rank_lt(t[a], t[b]) by {
            if b < i {
                assert(t[a] == s[a] && t[b] == s[b]);
            } else if b == i {
                assert(t[a] == s[a] && t[b] == key);
            } else if a == i {
                assert(t[b] == s[b - 1]);
                if b - 1 > i {
                    lemma_rank_transitive(key, s[i as int], s[b - 1]);
                }
            } else if a < i {
                assert(t[a] == s[a] && t[b] == s[b - 1]);
            } else {
                assert(t[a] == s[a - 1] && t[b] == s[b - 1]);
            }
        }
        assert forall|x: (int, Seq<char>)| t.contains(x) <==> (s.contains(x) || x == key) by {
            if t.contains(x) {
                let j = choose|j: int| 0 <= j < t.len() && t[j] == x;
                if j < i {
                    assert(s[j] == x);
                } else if j > i {
                    assert(s[j - 1] == x);
                }
            }
            if s.contains(x) {
                let j = choose|j: int| 0 <= j < s.len() && s[j] == x;
                if j < i {
                    assert(t[j] == x);
                } else {
                    assert(t[j + 1] == x);
                }
            }
            if x == key {
                assert(t[i as int] == x);
            }
        }
    }
    proof {
        lemma_sorted_entries(v@);
    }
}

} // verus!
