//! Property checks that ship with the library: GHOSTDAG data shape, the
//! supply identity and the heaviest-tip property.

use vstd::prelude::*;
use vstd::string::StringExecFns;
use crate::ghostdag::{hash_views, is_best_of, present_parent_indices, select_parent_idx, DagStore, GhostdagData};

verus! {

/// The blues and reds of `gd` together hold no hash twice.
pub open spec fn distinct_hashes(h: Seq<Seq<u8>>) -> bool {
    forall|i: int, j: int| 0 <= i < j < h.len() ==> #[trigger] h[i] != #[trigger] h[j]
}

/// GHOSTDAG data shape: some blue, the selected parent first among the blues
/// (beyond genesis), and no hash repeated across blues and reds.
pub open spec fn spec_mergeset_ok(gd: GhostdagData) -> bool {
    &&& gd.mergeset_blues@.len() > 0
    &&& (gd.blue_score > 0 ==> (gd.selected_parent matches Some(p) && p@ == gd.mergeset_blues@[0]@))
    &&& distinct_hashes(hash_views(gd.mergeset_blues@ + gd.mergeset_reds@))
}

/// Check the GHOSTDAG data shape.
pub fn mergeset_invariants(gd: &GhostdagData) -> (r: Result<(), String>)
    ensures
        r is Ok <==> spec_mergeset_ok(*gd),
        r matches Err(e) ==> e@ == if gd.mergeset_blues@.len() == 0 {
            "mergeset blues empty"@
        } else if gd.blue_score > 0 && !(gd.selected_parent matches Some(p) && p@ == gd.mergeset_blues@[0]@) {
            "selected parent must be first mergeset blue"@
        } else {
            "duplicate hash in mergeset"@
        },
{
    if gd.mergeset_blues.len() == 0 {
        return Err(String::from_str("mergeset blues empty"));
    }
    if gd.blue_score > 0 {
        let ok = match &gd.selected_parent {
            Some(p) => p.equals(&gd.mergeset_blues[0]),
            None => false,
        };
        if !ok {
            return Err(String::from_str("selected parent must be first mergeset blue"));
        }
    }
    let mut all: Vec<crate::hash::Hash> = Vec::new();
    let mut i: usize = 0;
    while i < gd.mergeset_blues.len()
        invariant
            i <= gd.mergeset_blues@.len(),
            all@ == gd.mergeset_blues@.take(i as int),
        decreases gd.mergeset_blues@.len() - i,
    {
        all.push(gd.mergeset_blues[i]);
        proof {
            assert(gd.mergeset_blues@.take(i + 1) =~= gd.mergeset_blues@.take(i as int).push(gd.mergeset_blues@[i as int]));
        }
        i = i + 1;
    }
    let mut j: usize = 0;
    proof {
        assert(gd.mergeset_blues@.take(gd.mergeset_blues@.len() as int) =~= gd.mergeset_blues@);
    }
    while j < gd.mergeset_reds.len()
        invariant
            j <= gd.mergeset_reds@.len(),
            all@ == gd.mergeset_blues@ + gd.mergeset_reds@.take(j as int),
        decreases gd.mergeset_reds@.len() - j,
    {
        all.push(gd.mergeset_reds[j]);
        proof {
            assert(gd.mergeset_blues@ + gd.mergeset_reds@.take(j + 1) =~= (gd.mergeset_blues@ + gd.mergeset_reds@.take(j as int)).push(gd.mergeset_reds@[j as int]));
        }
        j = j + 1;
    }
    proof {
        assert(gd.mergeset_reds@.take(gd.mergeset_reds@.len() as int) =~= gd.mergeset_reds@);
    }
    let n = all.len();
    let mut a: usize = 0;
    while a < n
        invariant
            a <= n,
            n == all@.len(),
            all@ == gd.mergeset_blues@ + gd.mergeset_reds@,
            gd.mergeset_blues@.len() > 0,
            gd.blue_score > 0 ==> (gd.selected_parent matches Some(p) && p@ == gd.mergeset_blues@[0]@),
            forall|x: int, y: int| 0 <= x < y < n && x < a ==> all@[x]@ != all@[y]@,
        decreases n - a,
    {
        let mut b: usize = a + 1;
        while b < n
            invariant
                a < b <= n,
                n == all@.len(),
                all@ == gd.mergeset_blues@ + gd.mergeset_reds@,
                gd.mergeset_blues@.len() > 0,
                gd.blue_score > 0 ==> (gd.selected_parent matches Some(p) && p@ == gd.mergeset_blues@[0]@),
                forall|x: int, y: int| 0 <= x < y < n && x < a ==> all@[x]@ != all@[y]@,
                forall|y: int| a < y < b ==> all@[a as int]@ != all@[y]@,
            decreases n - b,
        {
            if all[a].equals(&all[b]) {
                proof {
                    assert(hash_views(all@)[a as int] == hash_views(all@)[b as int]);
                    assert(!distinct_hashes(hash_views(all@)));
                }
                return Err(String::from_str("duplicate hash in mergeset"));
            }
            b = b + 1;
        }
        a = a + 1;
    }
    proof {
        assert forall|x: int, y: int| 0 <= x < y < hash_views(all@).len() implies #[trigger] hash_views(all@)[x] != #[trigger] hash_views(all@)[y] by {
            assert(all@[x]@ != all@[y]@);
        }
    }
    Ok(())
}

/// Supply components added up (saturating).
pub fn supply_components_sum(accounts: u128, staked: u128, utxo: u128, fees_burned: u128) -> (r: u128)
    ensures
        r == crate::chain::sat_u128(accounts + staked + utxo + fees_burned),
{
    accounts.saturating_add(staked).saturating_add(utxo).saturating_add(fees_burned)
}

/// The blue score of a tip for this check (0 when not stored).
pub open spec fn tip_weight(s: DagStore, h: Seq<u8>) -> int {
    if s.has(h) { s.score(s.idx_of(h)) } else { 0 }
}

/// Property check: the selected tip is among the tips and no tip has a
/// higher blue score.
pub fn selected_tip_is_heaviest(s: &DagStore, tips: &[crate::hash::Hash]) -> (r: Result<(), String>)
    requires
        s.wf(),
    ensures
        r is Ok,
        forall|k: int| 0 <= k < tips@.len() ==> #[trigger] tip_weight(*s, tips@[k]@) <= crate::chain::spec_tip_score(*s, tips@),
{
    let p = present_parent_indices(s, tips);
    let n = s.nodes.len();
    if p.len() == 0 {
        proof {
            assert forall|k: int| 0 <= k < tips@.len() implies #[trigger] tip_weight(*s, tips@[k]@) <= crate::chain::spec_tip_score(*s, tips@) by {
                if s.has(tips@[k]@) {
                    lemma_present_member(*s, tips@, k);
                }
            }
        }
        return Ok(());
    }
    let t = select_parent_idx(s, &p);
    let tip_score = s.nodes[t].blue_score;
    let mut k: usize = 0;
    while k < tips.len()
        invariant
            k <= tips@.len(),
            s.wf(),
            t < s.len(),
            tip_score == s.score(t as int),
            s.len() <= usize::MAX,
            is_best_of(*s, p@, t),
            p@ == s.present_indices(tips@),
            forall|j: int| 0 <= j < k ==> #[trigger] tip_weight(*s, tips@[j]@) <= tip_score,
        decreases tips@.len() - k,
    {
        let w = match crate::ghostdag::index_of(s, &tips[k]) {
            Some(i) => {
                proof {
                    s.lemma_idx_of_unique(tips@[k as int]@, i as int);
                    lemma_present_member(*s, tips@, k as int);
                }
                s.nodes[i].blue_score
            },
            None => 0,
        };
        proof {
            assert(w == tip_weight(*s, tips@[k as int]@));
        }
        if w > tip_score {
            return Err(String::from_str("heavier tip exists than selected"));
        }
        k = k + 1;
    }
    proof {
        let c = choose|i: usize| is_best_of(*s, p@, i);
        crate::ghostdag::lemma_best_unique(*s, p@, c, t);
        assert(crate::chain::spec_tip_score(*s, tips@) == tip_score);
    }
    Ok(())
}

/// A stored listed hash appears among the present positions.
proof fn lemma_present_member(s: DagStore, ps: Seq<crate::hash::Hash>, k: int)
    requires
        s.wf(),
        s.len() <= usize::MAX,
        0 <= k < ps.len(),
        s.has(ps[k]@),
    ensures
        exists|q: int| 0 <= q < s.present_indices(ps).len() && s.present_indices(ps)[q] as int == s.idx_of(ps[k]@),
    decreases ps.len(),
{
    let rest = s.present_indices(ps.drop_last());
    if k == ps.len() - 1 {
        assert(s.present_indices(ps) == rest.push(s.idx_of(ps.last()@) as usize));
        assert(s.present_indices(ps)[rest.len() as int] as int == s.idx_of(ps[k]@));
    } else {
        assert(ps.drop_last()[k] == ps[k]);
        lemma_present_member(s, ps.drop_last(), k);
        let q = choose|q: int| 0 <= q < rest.len() && rest[q] as int == s.idx_of(ps[k]@);
        if s.has(ps.last()@) {
            assert(s.present_indices(ps)[q] == rest[q]);
        } else {
            assert(s.present_indices(ps) == rest);
        }
    }
}

} // verus!
