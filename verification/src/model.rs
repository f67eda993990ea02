//! The mathematical model the index is verified against.
//!
//! A *world* maps every entity id to its modelled state: an optional
//! position and one optional value per schema field. Cell aggregates are
//! specified as folds over a cell's membership sequence, reading each
//! member's state from the world.

use vstd::prelude::*;
use crate::coords::Coord;

verus! {

/// One entity's state as the index sees it: its position, if any, and one
/// optional value per schema field. A missing slot means the entity does
/// not hold the field's component.
#[verifier::ext_equal]
pub ghost struct EntityModel {
    pub pos: Option<Coord>,
    pub comps: Seq<Option<i64>>,
}

/// The state of an entity that holds nothing at all.
pub open spec fn empty_entity(nfields: nat) -> EntityModel {
    EntityModel { pos: None, comps: Seq::new(nfields, |f: int| None) }
}

/// The world in which no entity holds anything.
pub open spec fn empty_world(nfields: nat) -> Map<u64, EntityModel> {
    Map::total(|id: u64| empty_entity(nfields))
}

/// A world assigns a state to every id, always with one component slot per
/// schema field.
pub open spec fn world_wf(w: Map<u64, EntityModel>, nfields: nat) -> bool {
    &&& forall|id: u64| w.dom().contains(id)
    &&& forall|id: u64| (#[trigger] w[id]).comps.len() == nfields
}

/// What an optional component value contributes to a counter.
pub open spec fn opt_cnt(v: Option<i64>) -> int {
    if v is Some {
        1
    } else {
        0
    }
}

/// What an optional component value contributes to a sum.
pub open spec fn opt_val(v: Option<i64>) -> int {
    match v {
        Some(x) => x as int,
        None => 0,
    }
}

/// Every positioned entity lies inside a `width` x `height` grid.
pub open spec fn world_positions_in_bounds(
    w: Map<u64, EntityModel>,
    width: int,
    height: int,
) -> bool {
    forall|id: u64|
        match (#[trigger] w[id]).pos {
            Some(c) => 0 <= c.x < width && 0 <= c.y < height,
            None => true,
        }
}

/// Whether entity `id` holds field `f`'s component.
pub open spec fn has_comp(w: Map<u64, EntityModel>, id: u64, f: int) -> bool {
    w[id].comps[f] is Some
}

/// The value entity `id` contributes to field `f`'s sum (zero when it does
/// not hold the component).
pub open spec fn comp_val(w: Map<u64, EntityModel>, id: u64, f: int) -> int {
    match w[id].comps[f] {
        Some(v) => v as int,
        None => 0,
    }
}

/// What entity `id` contributes to field `f`'s counter.
pub open spec fn cnt_contrib(w: Map<u64, EntityModel>, id: u64, f: int) -> int {
    if has_comp(w, id, f) {
        1
    } else {
        0
    }
}

/// The number of entities in `s` holding field `f`'s component.
pub open spec fn count_holders(s: Seq<u64>, w: Map<u64, EntityModel>, f: int) -> int
    decreases s.len(),
{
    if s.len() == 0 {
        0
    } else {
        count_holders(s.drop_last(), w, f) + cnt_contrib(w, s.last(), f)
    }
}

/// The sum of field `f`'s component values over the entities in `s`.
pub open spec fn sum_holders(s: Seq<u64>, w: Map<u64, EntityModel>, f: int) -> int
    decreases s.len(),
{
    if s.len() == 0 {
        0
    } else {
        sum_holders(s.drop_last(), w, f) + comp_val(w, s.last(), f)
    }
}

/// A counter never exceeds the membership size.
pub proof fn lemma_count_bounds(s: Seq<u64>, w: Map<u64, EntityModel>, f: int)
    ensures
        0 <= count_holders(s, w, f) <= s.len(),
    decreases s.len(),
{
    if s.len() > 0 {
        lemma_count_bounds(s.drop_last(), w, f);
    }
}

/// A sum is bounded by the membership size times the largest magnitude an
/// `i64` component value can have.
pub proof fn lemma_sum_bounds(s: Seq<u64>, w: Map<u64, EntityModel>, f: int)
    ensures
        -((s.len() as int) * 0x8000_0000_0000_0000) <= sum_holders(s, w, f) <= (s.len() as int)
            * 0x8000_0000_0000_0000,
    decreases s.len(),
{
    if s.len() > 0 {
        lemma_sum_bounds(s.drop_last(), w, f);
    }
}

/// A `usize` value fits in 64 bits.
pub proof fn lemma_usize_fits(n: usize)
    ensures
        n as int <= 0xffff_ffff_ffff_ffff,
{
}

/// With at most `2^64 - 1` members, a sum stays far enough from the `i128`
/// limits that one more `i64` contribution cannot overflow.
pub proof fn lemma_sum_fits(s: Seq<u64>, w: Map<u64, EntityModel>, f: int)
    requires
        s.len() <= 0xffff_ffff_ffff_ffff,
    ensures
        -0x7fff_ffff_ffff_ffff_8000_0000_0000_0000 <= sum_holders(s, w, f)
            <= 0x7fff_ffff_ffff_ffff_8000_0000_0000_0000,
{
    lemma_sum_bounds(s, w, f);
    assert((s.len() as int) * 0x8000_0000_0000_0000 <= 0xffff_ffff_ffff_ffff
        * 0x8000_0000_0000_0000) by (nonlinear_arith)
        requires
            s.len() <= 0xffff_ffff_ffff_ffff,
    ;
}

/// Aggregates over `s` are unaffected by changing the state of an id that
/// does not occur in `s`.
pub proof fn lemma_holders_agree(
    s: Seq<u64>,
    w: Map<u64, EntityModel>,
    w2: Map<u64, EntityModel>,
    f: int,
    id: u64,
)
    requires
        !s.contains(id),
        forall|id2: u64| id2 != id ==> w2[id2] == w[id2],
    ensures
        count_holders(s, w2, f) == count_holders(s, w, f),
        sum_holders(s, w2, f) == sum_holders(s, w, f),
    decreases s.len(),
{
    if s.len() > 0 {
        assert(s[s.len() - 1] == s.last());
        assert(s.last() != id);
        assert(!s.drop_last().contains(id)) by {
            if s.drop_last().contains(id) {
                let i = choose|i: int| 0 <= i < s.drop_last().len() && s.drop_last()[i] == id;
                assert(s[i] == id);
            }
        }
        lemma_holders_agree(s.drop_last(), w, w2, f, id);
    }
}

/// Appending a member adds exactly its contribution.
pub proof fn lemma_holders_push(s: Seq<u64>, w: Map<u64, EntityModel>, f: int, id: u64)
    ensures
        count_holders(s.push(id), w, f) == count_holders(s, w, f) + cnt_contrib(w, id, f),
        sum_holders(s.push(id), w, f) == sum_holders(s, w, f) + comp_val(w, id, f),
{
    assert(s.push(id).drop_last() =~= s);
    assert(s.push(id).last() == id);
}

/// Removing the member at index `k` subtracts exactly its contribution.
pub proof fn lemma_holders_remove(s: Seq<u64>, w: Map<u64, EntityModel>, f: int, k: int)
    requires
        0 <= k < s.len(),
    ensures
        count_holders(s.remove(k), w, f) == count_holders(s, w, f) - cnt_contrib(w, s[k], f),
        sum_holders(s.remove(k), w, f) == sum_holders(s, w, f) - comp_val(w, s[k], f),
    decreases s.len(),
{
    if k == s.len() - 1 {
        assert(s.remove(k) =~= s.drop_last());
    } else {
        assert(s.remove(k).last() == s.last());
        assert(s.remove(k).drop_last() =~= s.drop_last().remove(k));
        lemma_holders_remove(s.drop_last(), w, f, k);
    }
}

/// Changing the state of an id that occurs exactly once in `s` shifts the
/// aggregates by the difference of its contributions.
pub proof fn lemma_holders_update(
    s: Seq<u64>,
    w: Map<u64, EntityModel>,
    w2: Map<u64, EntityModel>,
    f: int,
    id: u64,
)
    requires
        s.no_duplicates(),
        s.contains(id),
        forall|id2: u64| id2 != id ==> w2[id2] == w[id2],
    ensures
        count_holders(s, w2, f) == count_holders(s, w, f) - cnt_contrib(w, id, f) + cnt_contrib(
            w2,
            id,
            f,
        ),
        sum_holders(s, w2, f) == sum_holders(s, w, f) - comp_val(w, id, f) + comp_val(w2, id, f),
    decreases s.len(),
{
    assert(s.len() > 0);
    assert(s.drop_last().no_duplicates()) by {
        assert(forall|i: int, j: int|
            0 <= i < j < s.drop_last().len() ==> s.drop_last()[i] == s[i] && s.drop_last()[j]
                == s[j]);
    }
    if s.last() == id {
        assert(!s.drop_last().contains(id)) by {
            if s.drop_last().contains(id) {
                let i = choose|i: int| 0 <= i < s.drop_last().len() && s.drop_last()[i] == id;
                assert(s[i] == id && s[s.len() - 1] == id);
            }
        }
        lemma_holders_agree(s.drop_last(), w, w2, f, id);
    } else {
        assert(s.drop_last().contains(id)) by {
            let i = choose|i: int| 0 <= i < s.len() && s[i] == id;
            assert(s[s.len() - 1] == s.last());
            assert(i != s.len() - 1);
            assert(s.drop_last()[i] == id);
        }
        lemma_holders_update(s.drop_last(), w, w2, f, id);
    }
}

/// Appending a fresh element keeps a sequence duplicate-free.
pub proof fn lemma_no_dup_push(s: Seq<u64>, id: u64)
    requires
        s.no_duplicates(),
        !s.contains(id),
    ensures
        s.push(id).no_duplicates(),
{
    let t = s.push(id);
    assert forall|i: int, j: int| 0 <= i < j < t.len() implies t[i] != t[j] by {
        if j == t.len() - 1 {
            assert(t[i] == s[i]);
            assert(s.contains(s[i]));
        }
    }
}

/// What a pushed sequence contains.
pub proof fn lemma_push_contains(s: Seq<u64>, x: u64)
    ensures
        forall|y: u64| s.push(x).contains(y) <==> (s.contains(y) || y == x),
{
    let t = s.push(x);
    assert forall|y: u64| t.contains(y) <==> (s.contains(y) || y == x) by {
        if t.contains(y) {
            let i = choose|i: int| 0 <= i < t.len() && t[i] == y;
            if i < s.len() {
                assert(s[i] == y);
            }
        }
        if s.contains(y) {
            let i = choose|i: int| 0 <= i < s.len() && s[i] == y;
            assert(t[i] == y);
        }
        assert(t[s.len() as int] == x);
    }
}

/// Removing an index from a duplicate-free sequence keeps it duplicate-free
/// and removes exactly the element at that index.
pub proof fn lemma_no_dup_remove(s: Seq<u64>, k: int)
    requires
        s.no_duplicates(),
        0 <= k < s.len(),
    ensures
        s.remove(k).no_duplicates(),
        !s.remove(k).contains(s[k]),
        forall|x: u64| x != s[k] ==> (s.remove(k).contains(x) <==> s.contains(x)),
{
    let t = s.remove(k);
    assert(forall|j: int| 0 <= j < k ==> t[j] == s[j]);
    assert(forall|j: int| k <= j < t.len() ==> t[j] == s[j + 1]);
    assert forall|i: int, j: int| 0 <= i < j < t.len() implies t[i] != t[j] by {}
    assert(!t.contains(s[k])) by {
        if t.contains(s[k]) {
            let i = choose|i: int| 0 <= i < t.len() && t[i] == s[k];
        }
    }
    assert forall|x: u64| x != s[k] implies (t.contains(x) <==> s.contains(x)) by {
        if t.contains(x) {
            let i = choose|i: int| 0 <= i < t.len() && t[i] == x;
            if i < k {
                assert(s[i] == x);
            } else {
                assert(s[i + 1] == x);
            }
        }
        if s.contains(x) {
            let i = choose|i: int| 0 <= i < s.len() && s[i] == x;
            if i < k {
                assert(t[i] == x);
            } else {
                assert(i > k);
                assert(t[i - 1] == x);
            }
        }
    }
}

} // verus!
