//! Blocks laid one behind the other, and the places where they start.

use vstd::prelude::*;

verus! {

/// All of `parts`, one behind the other.
pub open spec fn joined<T>(parts: Seq<Seq<T>>) -> Seq<T>
    decreases parts.len(),
{
    if parts.len() == 0 {
        Seq::empty()
    } else {
        joined(parts.drop_last()) + parts.last()
    }
}

/// The place at which part `k` starts; for `k` the number of parts, the
/// length of all.
pub open spec fn part_start<T>(parts: Seq<Seq<T>>, k: int) -> int {
    joined(parts.subrange(0, k)).len() as int
}

/// The first `k` parts joined are the first bytes of all parts joined.
pub proof fn lemma_joined_prefix<T>(parts: Seq<Seq<T>>, k: int)
    requires
        0 <= k <= parts.len(),
    ensures
        part_start(parts, k) <= joined(parts).len(),
        joined(parts).subrange(0, part_start(parts, k)) == joined(parts.subrange(0, k)),
    decreases parts.len(),
{
    if k == parts.len() {
        assert(parts.subrange(0, k) =~= parts);
        assert(joined(parts).subrange(0, joined(parts).len() as int) =~= joined(parts));
    } else {
        let init = parts.drop_last();
        assert(init.subrange(0, k) =~= parts.subrange(0, k));
        lemma_joined_prefix(init, k);
        assert(joined(parts).subrange(0, part_start(parts, k)) =~= joined(init).subrange(
            0,
            part_start(init, k),
        ));
    }
}

/// Part `k` stands in the joined bytes from its start on.
pub proof fn lemma_joined_part<T>(parts: Seq<Seq<T>>, k: int)
    requires
        0 <= k < parts.len(),
    ensures
        0 <= part_start(parts, k),
        part_start(parts, k + 1) == part_start(parts, k) + parts[k].len(),
        part_start(parts, k + 1) <= joined(parts).len(),
        joined(parts).subrange(part_start(parts, k), part_start(parts, k + 1)) == parts[k],
{
    lemma_joined_prefix(parts, k + 1);
    let upto = parts.subrange(0, k + 1);
    assert(upto.drop_last() =~= parts.subrange(0, k));
    assert(upto.last() == parts[k]);
    let whole = joined(parts);
    let head = joined(upto);
    assert(whole.subrange(part_start(parts, k), part_start(parts, k + 1)) =~= head.subrange(
        part_start(parts, k),
        part_start(parts, k + 1),
    ));
    assert(head.subrange(part_start(parts, k), part_start(parts, k + 1)) =~= parts[k]);
}

/// Starts grow with the place.
pub proof fn lemma_part_start_grows<T>(parts: Seq<Seq<T>>, j: int, k: int)
    requires
        0 <= j <= k <= parts.len(),
    ensures
        part_start(parts, j) <= part_start(parts, k),
    decreases k - j,
{
    if j < k {
        lemma_part_start_grows(parts, j, k - 1);
        lemma_joined_part(parts, k - 1);
    }
}

/// What stands in a part of `s` stands in `s`, moved on by the start of the
/// part.
pub proof fn lemma_nested_part<T>(s: Seq<T>, at: int, mid: Seq<T>, inner: int, part: Seq<T>)
    requires
        0 <= at,
        at + mid.len() <= s.len(),
        s.subrange(at, at + mid.len()) == mid,
        0 <= inner,
        inner + part.len() <= mid.len(),
        mid.subrange(inner, inner + part.len()) == part,
    ensures
        s.subrange(at + inner, at + inner + part.len()) == part,
{
    let got = s.subrange(at + inner, at + inner + part.len());
    assert forall|k: int| 0 <= k < part.len() implies got[k] == part[k] by {
        assert(s.subrange(at, at + mid.len())[inner + k] == s[at + inner + k]);
        assert(mid.subrange(inner, inner + part.len())[k] == mid[inner + k]);
    }
    assert(got =~= part);
}

/// What stands in the first of two sequences stands in both put together.
pub proof fn lemma_part_of_front<T>(front: Seq<T>, back: Seq<T>, inner: int, part: Seq<T>)
    requires
        0 <= inner,
        inner + part.len() <= front.len(),
        front.subrange(inner, inner + part.len()) == part,
    ensures
        (front + back).subrange(inner, inner + part.len()) == part,
{
    assert((front + back).subrange(inner, inner + part.len()) =~= front.subrange(
        inner,
        inner + part.len(),
    ));
}

} // verus!
