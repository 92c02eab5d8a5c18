//! Bodies and their limbs.
use vstd::prelude::*;

verus! {

/// The side of the body a limb is on.
#[derive(Clone, Copy, PartialEq, Eq, Structural, Debug)]
pub enum LimbSide {
    Left,
    Right,
}

impl Default for LimbSide {
    fn default() -> (r: Self)
        ensures
            r == LimbSide::Left,
    {
        LimbSide::Left
    }
}

impl LimbSide {
    /// The name of the side, as it is shown.
    pub fn to_string(&self) -> (r: String)
        ensures
            r@ == (match self {
                LimbSide::Left => "Left"@,
                LimbSide::Right => "Right"@,
            }),
    {
        match self {
            LimbSide::Left => "Left".to_owned(),
            LimbSide::Right => "Right".to_owned(),
        }
    }
}

/// The last of the first `n` joints whose children include joint `c`.
pub open spec fn last_parent(children: Seq<Vec<usize>>, c: int, n: int) -> Option<usize>
    decreases n,
{
    if n <= 0 {
        None
    } else if children[n - 1]@.contains(c as usize) {
        Some((n - 1) as usize)
    } else {
        last_parent(children, c, n - 1)
    }
}

/// Rebuilds the bone hierarchy of a skin from each joint's list of child nodes, joints
/// being numbered in skin order. A child number that is not a joint (not below the number
/// of joints) is passed over. Gives the parent of each joint (where several joints list
/// the same child, the last of them) and the root joints, those without a parent, in skin
/// order.
pub fn bone_hierarchy(children: &Vec<Vec<usize>>) -> (r: (Vec<Option<usize>>, Vec<usize>))
    ensures
        r.0@.len() == children@.len(),
        forall|c: int| 0 <= c < children@.len() ==> #[trigger] r.0@[c] == last_parent(
            children@,
            c,
            children@.len() as int,
        ),
        forall|i: int, j: int| 0 <= i < j < r.1@.len() ==> r.1@[i] < r.1@[j],
        forall|i: int| 0 <= i < r.1@.len() ==> #[trigger] r.1@[i] < children@.len() && r.0@[r.1@[i] as int] is None,
        forall|c: int| 0 <= c < children@.len() && r.0@[c] is None ==> r.1@.contains(c as usize),
{
    let n = children.len();
    let mut parents: Vec<Option<usize>> = Vec::new();
    let mut k: usize = 0;
    while k < n
        invariant
            k <= n,
            n == children@.len(),
            parents@.len() == k,
            forall|c: int| 0 <= c < k ==> #[trigger] parents@[c] == last_parent(children@, c, 0),
        decreases n - k,
    {
        parents.push(None);
        k += 1;
    }
    let mut p: usize = 0;
    while p < n
        invariant
            p <= n,
            n == children@.len(),
            parents@.len() == n,
            forall|c: int| 0 <= c < n ==> #[trigger] parents@[c] == last_parent(children@, c, p as int),
        decreases n - p,
    {
        let list = &children[p];
        let mut j: usize = 0;
        while j < list.len()
            invariant
                j <= list.len(),
                p < n,
                n == children@.len(),
                list == children@[p as int],
                parents@.len() == n,
                forall|c: int| 0 <= c < n ==> #[trigger] parents@[c] == (if list@.take(j as int).contains(
                    c as usize,
                ) {
                    Some(p)
                } else {
                    last_parent(children@, c, p as int)
                }),
            decreases list.len() - j,
        {
            let c = list[j];
            if c < n {
                parents.set(c, Some(p));
            }
            proof {
                assert forall|d: int| 0 <= d < n implies #[trigger] parents@[d] == (if list@.take(j + 1).contains(
                    d as usize,
                ) {
                    Some(p)
                } else {
                    last_parent(children@, d, p as int)
                }) by {
                    assert(list@.take(j + 1) =~= list@.take(j as int).push(c));
                    if list@.take(j as int).contains(d as usize) {
                        let w = choose|w: int| 0 <= w < j && list@.take(j as int)[w] == d as usize;
                        assert(list@.take(j + 1)[w] == d as usize);
                    }
                    if d as usize == c {
                        assert(list@.take(j + 1)[j as int] == c);
                    }
                }
            }
            j += 1;
        }
        assert(list@.take(j as int) =~= list@);
        p += 1;
    }
    let mut roots: Vec<usize> = Vec::new();
    let mut c: usize = 0;
    while c < n
        invariant
            c <= n,
            n == children@.len(),
            parents@.len() == n,
            forall|d: int| 0 <= d < n ==> #[trigger] parents@[d] == last_parent(children@, d, n as int),
            forall|i: int, j: int| 0 <= i < j < roots@.len() ==> roots@[i] < roots@[j],
            forall|i: int| 0 <= i < roots@.len() ==> #[trigger] roots@[i] < c && parents@[roots@[i] as int] is None,
            forall|d: int| 0 <= d < c && parents@[d] is None ==> roots@.contains(d as usize),
        decreases n - c,
    {
        let ghost before = roots@;
        if parents[c].is_none() {
            roots.push(c);
            proof {
                assert(roots@[roots@.len() - 1] == c);
            }
        }
        proof {
            assert forall|d: int| 0 <= d < c + 1 && parents@[d] is None implies roots@.contains(d as usize) by {
                if d < c {
                    assert(before.contains(d as usize));
                    let w = choose|w: int| 0 <= w < before.len() && before[w] == d as usize;
                    assert(roots@[w] == d as usize);
                } else {
                    assert(roots@[roots@.len() - 1] == c);
                }
            }
        }
        c += 1;
    }
    (parents, roots)
}

} // verus!
