use vstd::prelude::*;

verus! {

/// The permutations of `xs` in the order in which `heap_recursive` visits them.
pub uninterp spec fn heap_order(xs: Seq<usize>) -> Seq<Seq<usize>>;

/// Records one visited permutation.
pub fn record_permutation(out: &mut Vec<Vec<usize>>, p: &[usize])
    ensures
        final(out)@.len() == old(out)@.len() + 1,
        forall|k: int| 0 <= k < old(out)@.len() ==> #[trigger] final(out)@[k] == old(out)@[k],
        final(out)@.last()@ == p@,
{
    let mut v: Vec<usize> = Vec::new();
    let mut i: usize = 0;
    while i < p.len()
        invariant
            i <= p@.len(),
            v@ == p@.subrange(0, i as int),
        decreases p@.len() - i,
    {
        v.push(p[i]);
        i += 1;
    }
    assert(v@ =~= p@);
    out.push(v);
}

/// Calls `permutohedron::heap_recursive` on `xs` and collects every
/// permutation it visits, in order. The visits are permutations of the
/// input; an empty input is visited once; the slice is left as the last
/// visit left it.
#[verifier::external_body]
pub fn heap_permutations(xs: &mut Vec<usize>) -> (perms: Vec<Vec<usize>>)
    ensures
        perms@.map_values(|p: Vec<usize>| p@) == heap_order(old(xs)@),
        perms@.len() >= 1,
        final(xs)@ == perms@.last()@,
        forall|k: int| 0 <= k < perms@.len() ==> (#[trigger] perms@[k])@.to_multiset() == old(xs)@.to_multiset(),
{
    let mut perms: Vec<Vec<usize>> = Vec::new();
    permutohedron::heap_recursive(xs.as_mut_slice(), |p| record_permutation(&mut perms, p));
    perms
}

} // verus!
