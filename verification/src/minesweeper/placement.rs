//! Laying mines at random on a flat vector of tiles.
use vstd::prelude::*;
use crate::random::{draw, drawn};

verus! {

/// `positions` lists distinct positions below `n`, and `mined` marks exactly
/// the listed positions.
pub open spec fn placed(mined: Seq<bool>, positions: Seq<usize>, n: int) -> bool {
    &&& mined.len() == n
    &&& forall|m: int| 0 <= m < positions.len() ==> #[trigger] positions[m] < n
    &&& forall|m1: int, m2: int|
        0 <= m1 < positions.len() && 0 <= m2 < positions.len() && m1 != m2 ==> positions[m1]
            != positions[m2]
    &&& forall|j: int|
        0 <= j < n ==> (#[trigger] mined[j] <==> exists|m: int|
            0 <= m < positions.len() && positions[m] == j)
}

/// The first position not yet mined.
fn first_free(mined: &Vec<bool>) -> (j: usize)
    requires
        exists|j: int| 0 <= j < mined.len() && !mined@[j],
    ensures
        j < mined.len(),
        !mined@[j as int],
{
    let mut j: usize = 0;
    while j < mined.len() && mined[j]
        invariant
            j <= mined.len(),
            forall|j2: int| 0 <= j2 < j ==> mined@[j2],
            exists|j: int| 0 <= j < mined.len() && !mined@[j],
        decreases mined.len() - j,
    {
        j += 1;
    }
    j
}

/// The positions, in order, that the draws `d` lay mines on among `n`
/// positions: each draw lands on its value modulo `n` and lays a mine there
/// unless one lies there already.
pub open spec fn laid(d: Seq<u32>, n: int) -> Seq<int>
    decreases d.len(),
{
    if d.len() == 0 {
        Seq::empty()
    } else {
        let before = laid(d.drop_last(), n);
        let p = d.last() as int % n;
        if before.contains(p) {
            before
        } else {
            before.push(p)
        }
    }
}

/// The positions of `ps`, as a set.
pub open spec fn position_set(ps: Seq<usize>) -> Set<int> {
    Set::new(|j: int| exists|m: int| 0 <= m < ps.len() && ps[m] as int == j)
}

/// `positions` were laid by the draws `d`, each taken from the source of
/// chance: the positions the draws laid come first, in order, and they are
/// all the positions unless the draws ran out after `u64::MAX` of them.
pub open spec fn laid_by(d: Seq<u32>, n: int, positions: Seq<usize>) -> bool {
    let p = positions.map_values(|q: usize| q as int);
    &&& forall|i: int| 0 <= i < d.len() ==> drawn(#[trigger] d[i])
    &&& laid(d, n).len() <= p.len()
    &&& p.take(laid(d, n).len() as int) == laid(d, n)
    &&& d.len() < u64::MAX ==> p == laid(d, n)
}

/// The draws decide the layout: two lists of positions laid by the same
/// draws, before the draws run out, are the same list.
pub proof fn law_draws_decide_layout(d: Seq<u32>, n: int, first: Seq<usize>, second: Seq<usize>)
    requires
        laid_by(d, n, first),
        laid_by(d, n, second),
        d.len() < u64::MAX,
    ensures
        first == second,
{
    let a = first.map_values(|q: usize| q as int);
    let b = second.map_values(|q: usize| q as int);
    assert(a == b);
    assert forall|i: int| 0 <= i < first.len() implies first[i] == second[i] by {
        assert(a[i] == b[i]);
    }
    assert(first =~= second);
}

/// Where a draw of `draw` lays the next mine: at position `draw` modulo the
/// number of positions, or nowhere (the draw is wasted) when that position
/// holds a mine already.
pub fn place_drawn(tiles: &Vec<bool>, draw: u32) -> (r: Option<usize>)
    requires
        tiles.len() >= 1,
    ensures
        r == if tiles@[draw as int % tiles.len() as int] {
            None
        } else {
            Some((draw as int % tiles.len() as int) as usize)
        },
{
    let index = draw as usize % tiles.len();
    if tiles[index] {
        None
    } else {
        Some(index)
    }
}

/// Marks `mine_count` distinct positions below `n` as mined, drawing each
/// position at random and drawing again when it is taken already. Should
/// the draws run out (after `u64::MAX` of them), the first free position is
/// taken instead.
pub fn place_mines(n: usize, mine_count: u16) -> (r: (Vec<bool>, Vec<usize>))
    requires
        1 <= n,
        mine_count <= n,
    ensures
        placed(r.0@, r.1@, n as int),
        r.1.len() == mine_count,
        exists|d: Seq<u32>| #[trigger] laid_by(d, n as int, r.1@),
{
    let mut tiles: Vec<bool> = Vec::new();
    let mut i: usize = 0;
    while i < n
        invariant
            i <= n,
            tiles.len() == i,
            forall|j: int| 0 <= j < i ==> !tiles@[j],
        decreases n - i,
    {
        tiles.push(false);
        i += 1;
    }
    let mut mine_positions: Vec<usize> = Vec::new();
    let mut count = mine_count;
    let mut attempts: u64 = 0;
    let ghost mut taken: Seq<u32> = Seq::empty();
    proof {
        assert(laid(taken, n as int) =~= Seq::<int>::empty());
        assert(mine_positions@.map_values(|q: usize| q as int) =~= laid(taken, n as int));
        assert(mine_positions@.map_values(|q: usize| q as int).take(0) =~= laid(taken, n as int));
    }
    while count > 0
        invariant
            1 <= n,
            mine_count <= n,
            placed(tiles@, mine_positions@, n as int),
            mine_positions.len() + count == mine_count,
            taken.len() == attempts,
            laid_by(taken, n as int, mine_positions@),
        decreases count, u64::MAX - attempts,
    {
        let index: usize;
        let ghost mut from_draw = false;
        if attempts < u64::MAX {
            attempts += 1;
            let value = draw();
            let ghost before = taken;
            let ghost pos = mine_positions@.map_values(|q: usize| q as int);
            proof {
                taken = taken.push(value);
                assert(taken.drop_last() =~= before);
                let x = value as int % n as int;
                assert(laid(before, n as int) == pos);
                assert(tiles@[x] <==> pos.contains(x)) by {
                    if tiles@[x] {
                        let m = choose|m: int| 0 <= m < mine_positions.len() && mine_positions@[m] == x;
                        assert(pos[m] == x);
                    }
                    if pos.contains(x) {
                        let m = choose|m: int| 0 <= m < pos.len() && pos[m] == x;
                        assert(mine_positions@[m] == x);
                    }
                }
                assert forall|i: int| 0 <= i < taken.len() implies drawn(#[trigger] taken[i]) by {
                    if i < before.len() {
                        assert(taken[i] == before[i]);
                    }
                }
            }
            match place_drawn(&tiles, value) {
                Some(i) => {
                    index = i;
                    proof {
                        from_draw = true;
                        assert(laid(taken, n as int) == pos.push(i as int));
                    }
                },
                None => {
                    proof {
                        assert(laid(taken, n as int) == laid(before, n as int));
                    }
                    continue;
                },
            }
        } else {
            proof {
                let taken = mine_positions@.map_values(|p: usize| p as int).to_set();
                mine_positions@.map_values(|p: usize| p as int).lemma_cardinality_of_set();
                if forall|j: int| 0 <= j < n ==> tiles@[j] {
                    let r = vstd::set_lib::set_int_range(0, n as int);
                    vstd::set_lib::lemma_int_range(0, n as int);
                    assert forall|j: int| r.contains(j) implies taken.contains(j) by {
                        assert(tiles@[j]);
                        let m = choose|m: int|
                            0 <= m < mine_positions.len() && mine_positions@[m] == j;
                        assert(mine_positions@.map_values(|p: usize| p as int)[m] == j);
                    }
                    vstd::set_lib::lemma_len_subset(r, taken);
                }
            }
            index = first_free(&tiles);
        }
        let ghost old_tiles = tiles@;
        let ghost old_positions = mine_positions@;
        tiles.set(index, true);
        mine_positions.push(index);
        proof {
            let p0 = old_positions.map_values(|q: usize| q as int);
            let p1 = mine_positions@.map_values(|q: usize| q as int);
            assert(p1 =~= p0.push(index as int));
            assert(p1.take(p0.len() as int) =~= p0);
            let l = laid(taken, n as int);
            if from_draw {
                assert(p1 =~= l);
                assert(p1.take(l.len() as int) =~= l);
            } else {
                assert(p0.take(l.len() as int) == l);
                assert(p1.take(l.len() as int) =~= p0.take(l.len() as int));
            }
        }
        proof {
            assert forall|j: int| 0 <= j < n implies (#[trigger] tiles@[j] <==> exists|m: int|
                0 <= m < mine_positions.len() && mine_positions@[m] == j) by {
                if j == index {
                    assert(mine_positions@[mine_positions.len() - 1] == j);
                } else if old_tiles[j] {
                    let m = choose|m: int| 0 <= m < old_positions.len() && old_positions[m] == j;
                    assert(mine_positions@[m] == j);
                } else {
                    if exists|m: int| 0 <= m < mine_positions.len() && mine_positions@[m] == j {
                        let m = choose|m: int|
                            0 <= m < mine_positions.len() && mine_positions@[m] == j;
                        assert(old_positions[m] == j);
                    }
                }
            }
            assert forall|m: int| 0 <= m < old_positions.len() implies old_positions[m] != index by {
                assert(old_tiles[old_positions[m] as int]);
            }
        }
        count -= 1;
    }
    (tiles, mine_positions)
}

} // verus!
