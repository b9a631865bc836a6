//! Facts about sequences without repeats, as the linked containers keep them of their
//! records.

use vstd::prelude::*;

verus! {

/// What a sequence holds after one more value is put at its end.
pub proof fn lemma_push_holds<A>(s: Seq<A>, x: A)
    ensures
        forall|a: A| #[trigger] s.push(x).contains(a) <==> s.contains(a) || a == x,
        s.no_duplicates() && !s.contains(x) ==> s.push(x).no_duplicates(),
{
    assert forall|a: A| #[trigger] s.push(x).contains(a) <==> s.contains(a) || a == x by {
        if s.contains(a) {
            let i = s.index_of(a);
            assert(s.push(x)[i] == a);
        }
        assert(s.push(x)[s.len() as int] == x);
        if s.push(x).contains(a) {
            let i = s.push(x).index_of(a);
            if i < s.len() {
                assert(s[i] == a);
            }
        }
    }
}

/// What a sequence without repeats holds after its last value is taken away.
pub proof fn lemma_drop_last_holds<A>(s: Seq<A>)
    requires
        s.len() > 0,
        s.no_duplicates(),
    ensures
        forall|a: A| #[trigger] s.drop_last().contains(a) <==> s.contains(a) && a != s.last(),
        s.drop_last().no_duplicates(),
{
    assert forall|a: A| #[trigger] s.drop_last().contains(a) <==> s.contains(a) && a
        != s.last() by {
        if s.drop_last().contains(a) {
            let i = s.drop_last().index_of(a);
            assert(s[i] == a);
        }
        if s.contains(a) && a != s.last() {
            let i = s.index_of(a);
            assert(s.drop_last()[i] == a);
        }
    }
}

/// What a sequence without repeats holds after its first value is taken away.
pub proof fn lemma_drop_first_holds<A>(s: Seq<A>)
    requires
        s.len() > 0,
        s.no_duplicates(),
    ensures
        forall|a: A| #[trigger] s.drop_first().contains(a) <==> s.contains(a) && a != s.first(),
        s.drop_first().no_duplicates(),
{
    assert forall|a: A| #[trigger] s.drop_first().contains(a) <==> s.contains(a) && a
        != s.first() by {
        if s.drop_first().contains(a) {
            let i = s.drop_first().index_of(a);
            assert(s[i + 1] == a);
        }
        if s.contains(a) && a != s.first() {
            let i = s.index_of(a);
            assert(s.drop_first()[i - 1] == a);
        }
    }
}

} // verus!
