//! Choosing, for each source file, the search root it is read from.
use vstd::prelude::*;

verus! {

/// Index of the first root under which the file exists, or the number of roots.
pub open spec fn first_root(found: Seq<bool>) -> nat
    decreases found.len(),
{
    if found.len() == 0 {
        0
    } else if found[0] {
        0
    } else {
        1 + first_root(found.drop_first())
    }
}

proof fn lemma_first_root(found: Seq<bool>)
    ensures
        first_root(found) <= found.len(),
        first_root(found) < found.len() ==> found[first_root(found) as int],
        forall|j: int| 0 <= j < first_root(found) ==> !found[j],
    decreases found.len(),
{
    if found.len() > 0 && !found[0] {
        lemma_first_root(found.drop_first());
        assert forall|j: int| 0 <= j < first_root(found) implies !found[j] by {
            if j > 0 {
                assert(found[j] == found.drop_first()[j - 1]);
            }
        }
    }
}

/// Given, for each source file and each search root in order, whether the
/// file exists under that root, picks for each file the first such root. A
/// file found under no root fails the whole lookup: the error is the first
/// such file, and no root is picked for any file.
pub fn resolve_sources(found: &Vec<Vec<bool>>) -> (r: Result<Vec<usize>, usize>)
    ensures
        r is Ok <==> forall|i: int| 0 <= i < found@.len() ==> first_root(found@[i]@) < found@[i]@.len(),
        r matches Ok(v) ==> v@.len() == found@.len() && forall|i: int|
            0 <= i < found@.len() ==> v@[i] == first_root(#[trigger] found@[i]@),
        r matches Err(i) ==> i < found@.len() && first_root(found@[i as int]@) == found@[i as int]@.len()
            && forall|j: int| 0 <= j < i ==> first_root(#[trigger] found@[j]@) < found@[j]@.len(),
{
    let mut out: Vec<usize> = Vec::new();
    let mut i: usize = 0;
    while i < found.len()
        invariant
            i <= found@.len(),
            out@.len() == i,
            forall|j: int|
                0 <= j < i ==> out@[j] == first_root(#[trigger] found@[j]@) && first_root(found@[j]@)
                    < found@[j]@.len(),
        decreases found@.len() - i,
    {
        let f = &found[i];
        proof {
            lemma_first_root(f@);
        }
        let mut k: usize = 0;
        while k < f.len() && !f[k]
            invariant
                k <= f@.len(),
                forall|j: int| 0 <= j < k ==> !f@[j],
            decreases f@.len() - k,
        {
            k = k + 1;
        }
        proof {
            if first_root(f@) < k {
                assert(f@[first_root(f@) as int]);
            }
            if k < f@.len() {
                assert(f@[k as int]);
            }
        }
        if k == f.len() {
            return Err(i);
        }
        out.push(k);
        i = i + 1;
    }
    Ok(out)
}

} // verus!
