//! Small sequence lemmas shared by the loop proofs of this crate.

use vstd::prelude::*;

verus! {

/// Taking the whole length of a sequence is the sequence itself.
pub proof fn lemma_take_full<A>(s: Seq<A>)
    ensures
        s.take(s.len() as int) == s,
{
    assert(s.take(s.len() as int) =~= s);
}

} // verus!
