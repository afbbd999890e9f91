//! Groups of bytes, and texts joined by a separator.

use vstd::prelude::*;

verus! {

/// `bytes` cut into consecutive groups of `size` bytes. The last group holds
/// what is left and may be shorter; no group is empty.
pub open spec fn groups(bytes: Seq<u8>, size: nat) -> Seq<Seq<u8>>
    decreases bytes.len(),
{
    if size == 0 || bytes.len() == 0 {
        Seq::empty()
    } else if bytes.len() <= size {
        seq![bytes]
    } else {
        seq![bytes.take(size as int)] + groups(bytes.skip(size as int), size)
    }
}

/// The texts of `parts` in their order, with `separator` between each two
/// neighbours and nowhere else.
pub open spec fn joined(parts: Seq<Seq<char>>, separator: Seq<char>) -> Seq<char>
    decreases parts.len(),
{
    if parts.len() == 0 {
        Seq::empty()
    } else if parts.len() == 1 {
        parts[0]
    } else {
        joined(parts.drop_last(), separator) + separator + parts.last()
    }
}

/// The groups part the bytes: one after the other they are the bytes again,
/// each holds `size` bytes but the last, and the last holds at least one byte
/// and at most `size`.
pub proof fn lemma_groups_part(bytes: Seq<u8>, size: nat)
    requires
        size > 0,
    ensures
        groups(bytes, size).flatten() == bytes,
        bytes.len() > 0 ==> groups(bytes, size).len() > 0,
        forall|k: int|
            0 <= k < groups(bytes, size).len() ==> 1 <= (#[trigger] groups(bytes, size)[k]).len()
                <= size,
        forall|k: int|
            0 <= k < groups(bytes, size).len() - 1 ==> (#[trigger] groups(bytes, size)[k]).len()
                == size,
    decreases bytes.len(),
{
    let list = groups(bytes, size);
    if bytes.len() == 0 {
        assert(list.flatten() =~= bytes);
    } else if bytes.len() <= size {
        assert(list.drop_first() =~= Seq::<Seq<u8>>::empty());
        assert(list.drop_first().flatten() =~= Seq::<u8>::empty());
        assert(list.flatten() =~= bytes);
    } else {
        let head = bytes.take(size as int);
        let rest = groups(bytes.skip(size as int), size);
        lemma_groups_part(bytes.skip(size as int), size);
        assert(list.first() == head);
        assert(list.drop_first() =~= rest);
        assert(list.flatten() =~= bytes);
        assert forall|k: int| 0 <= k < list.len() implies 1 <= (#[trigger] list[k]).len()
            <= size by {
            if k > 0 {
                assert(list[k] == rest[k - 1]);
            }
        }
        assert forall|k: int| 0 <= k < list.len() - 1 implies (#[trigger] list[k]).len()
            == size by {
            if k > 0 {
                assert(list[k] == rest[k - 1]);
            }
        }
    }
}

/// Groups of one byte are the bytes, each by itself.
pub proof fn lemma_groups_of_one(bytes: Seq<u8>)
    ensures
        groups(bytes, 1) == Seq::new(bytes.len(), |k: int| seq![bytes[k]]),
    decreases bytes.len(),
{
    let each = Seq::new(bytes.len(), |k: int| seq![bytes[k]]);
    if bytes.len() == 0 {
        assert(groups(bytes, 1) =~= each);
    } else if bytes.len() == 1 {
        assert(bytes =~= seq![bytes[0]]);
        assert(groups(bytes, 1) =~= each);
    } else {
        let rest = bytes.skip(1);
        lemma_groups_of_one(rest);
        assert(bytes.take(1) =~= seq![bytes[0]]);
        assert(groups(bytes, 1) =~= each);
    }
}

/// Joining begins with the first text, which the separator parts from the
/// others joined.
pub proof fn lemma_joined_first(first: Seq<char>, others: Seq<Seq<char>>, separator: Seq<char>)
    requires
        others.len() > 0,
    ensures
        joined(seq![first] + others, separator) == first + separator + joined(others, separator),
    decreases others.len(),
{
    let all = seq![first] + others;
    assert(all.drop_last() =~= seq![first] + others.drop_last());
    assert(all.last() == others.last());
    if others.len() == 1 {
        assert(all.drop_last() =~= seq![first]);
        assert(joined(all.drop_last(), separator) == first);
        assert(joined(others, separator) == others.last());
    } else {
        lemma_joined_first(first, others.drop_last(), separator);
        assert(joined(all, separator) =~= first + separator + joined(others, separator));
    }
}

} // verus!
