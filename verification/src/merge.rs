//! Merging of normals that are stored alike.
//!
//! Two normals are the same normal once saved if and only if their quantized
//! forms are equal. Of each group of such normals the first is kept, and the
//! triangle corners that named a normal of the group name the kept one.

use crate::normals::QuantizedNormal;
use crate::IndexType;
use vstd::prelude::*;

verus! {

/// Whether no normal before place `index` is equal to the one at `index`.
pub open spec fn is_first_seen(encoded: Seq<QuantizedNormal>, index: int) -> bool {
    forall|j: int| 0 <= j < index ==> encoded[j] != encoded[index]
}

/// The places of the normals that are kept: those that no earlier normal is
/// equal to, in ascending order.
pub open spec fn first_seen(encoded: Seq<QuantizedNormal>) -> Seq<int>
    decreases encoded.len(),
{
    if encoded.len() == 0 {
        Seq::empty()
    } else {
        let front = first_seen(encoded.drop_last());
        if is_first_seen(encoded, encoded.len() - 1) {
            front.push(encoded.len() - 1)
        } else {
            front
        }
    }
}

/// The items of `items` at the given places, in the order of the places.
pub open spec fn selected<T>(items: Seq<T>, places: Seq<int>) -> Seq<T> {
    Seq::new(places.len(), |t: int| items[places[t]])
}

/// Whether the kept normal number `kept` is equal to the normal at `index`.
pub open spec fn stands_for(encoded: Seq<QuantizedNormal>, kept: int, index: int) -> bool {
    0 <= kept < first_seen(encoded).len() && encoded[first_seen(encoded)[kept]] == encoded[index]
}

/// The number, among the kept normals, of the one that is equal to the normal
/// at `index`.
pub open spec fn merged_index(encoded: Seq<QuantizedNormal>, index: int) -> int {
    choose|kept: int| stands_for(encoded, kept, index)
}

/// The kept places are places of the array, each the first of its normal, in
/// strictly ascending order, and there are no more of them than normals.
pub proof fn lemma_first_seen_places(encoded: Seq<QuantizedNormal>)
    ensures
        first_seen(encoded).len() <= encoded.len(),
        forall|t: int|
            0 <= t < first_seen(encoded).len() ==> 0 <= #[trigger] first_seen(encoded)[t]
                < encoded.len() && is_first_seen(encoded, first_seen(encoded)[t]),
        forall|s: int, t: int|
            0 <= s < t < first_seen(encoded).len() ==> first_seen(encoded)[s] < first_seen(
                encoded,
            )[t],
    decreases encoded.len(),
{
    if encoded.len() > 0 {
        let front = encoded.drop_last();
        lemma_first_seen_places(front);
        assert forall|t: int| 0 <= t < first_seen(front).len() implies is_first_seen(
            encoded,
            #[trigger] first_seen(front)[t],
        ) by {
            let place = first_seen(front)[t];
            assert(is_first_seen(front, place));
            assert forall|j: int| 0 <= j < place implies encoded[j] != encoded[place] by {
                assert(front[j] != front[place]);
            }
        }
    }
}

/// Every normal of the array is equal to a kept one.
pub proof fn lemma_first_seen_covers(encoded: Seq<QuantizedNormal>, index: int)
    requires
        0 <= index < encoded.len(),
    ensures
        exists|kept: int| stands_for(encoded, kept, index),
    decreases encoded.len(), index,
{
    let front = encoded.drop_last();
    let last = encoded.len() - 1;
    if index == last {
        if is_first_seen(encoded, last) {
            assert(stands_for(encoded, first_seen(front).len() as int, index));
        } else {
            let earlier = choose|j: int| 0 <= j < last && encoded[j] == encoded[last];
            lemma_first_seen_covers(encoded, earlier);
            let kept = choose|kept: int| stands_for(encoded, kept, earlier);
            assert(stands_for(encoded, kept, index));
        }
    } else {
        lemma_first_seen_covers(front, index);
        let kept = choose|kept: int| stands_for(front, kept, index);
        lemma_first_seen_places(front);
        assert(first_seen(encoded)[kept] == first_seen(front)[kept]);
        assert(front[first_seen(front)[kept]] == encoded[first_seen(front)[kept]]);
        assert(stands_for(encoded, kept, index));
    }
}

/// No two kept normals are equal.
pub proof fn lemma_first_seen_distinct(encoded: Seq<QuantizedNormal>, s: int, t: int)
    requires
        0 <= s < first_seen(encoded).len(),
        0 <= t < first_seen(encoded).len(),
        encoded[first_seen(encoded)[s]] == encoded[first_seen(encoded)[t]],
    ensures
        s == t,
{
    lemma_first_seen_places(encoded);
    let kept = first_seen(encoded);
    if s < t {
        assert(is_first_seen(encoded, kept[t]));
        assert(kept[s] < kept[t]);
    } else if t < s {
        assert(is_first_seen(encoded, kept[s]));
        assert(kept[t] < kept[s]);
    }
}

/// Exactly one kept normal is equal to the normal at `index`: the one that
/// [`merged_index`] names.
pub proof fn lemma_merged_index_unique(encoded: Seq<QuantizedNormal>, kept: int, index: int)
    requires
        0 <= index < encoded.len(),
        stands_for(encoded, kept, index),
    ensures
        merged_index(encoded, index) == kept,
{
    lemma_first_seen_distinct(encoded, kept, merged_index(encoded, index));
}

/// Every merged index names a kept normal, and that normal is equal to the one
/// that the index stands for.
pub proof fn lemma_merged_index_in_range(encoded: Seq<QuantizedNormal>, index: int)
    requires
        0 <= index < encoded.len(),
    ensures
        0 <= merged_index(encoded, index) < first_seen(encoded).len(),
        selected(encoded, first_seen(encoded))[merged_index(encoded, index)] == encoded[index],
{
    lemma_first_seen_covers(encoded, index);
}

/// Two normals that are stored alike get the same merged index, and two that
/// are not get different ones.
pub proof fn lemma_merged_index_same_encoding(encoded: Seq<QuantizedNormal>, a: int, b: int)
    requires
        0 <= a < encoded.len(),
        0 <= b < encoded.len(),
    ensures
        encoded[a] == encoded[b] <==> merged_index(encoded, a) == merged_index(encoded, b),
{
    lemma_first_seen_covers(encoded, a);
    lemma_first_seen_covers(encoded, b);
    if encoded[a] == encoded[b] {
        lemma_merged_index_unique(encoded, merged_index(encoded, a), b);
    }
}

/// Where no two normals are equal, every one of them is kept.
pub proof fn lemma_first_seen_of_distinct(encoded: Seq<QuantizedNormal>)
    requires
        forall|a: int, b: int| 0 <= a < b < encoded.len() ==> encoded[a] != encoded[b],
    ensures
        first_seen(encoded) =~= Seq::new(encoded.len(), |t: int| t),
    decreases encoded.len(),
{
    if encoded.len() > 0 {
        let front = encoded.drop_last();
        assert forall|a: int, b: int| 0 <= a < b < front.len() implies front[a] != front[b] by {
            assert(encoded[a] != encoded[b]);
        }
        lemma_first_seen_of_distinct(front);
        assert(is_first_seen(encoded, encoded.len() - 1));
    }
}

/// Merging what a merge has kept changes nothing: every kept normal is kept
/// again, at its own place, and stands for itself.
pub proof fn lemma_merge_idempotent(encoded: Seq<QuantizedNormal>)
    ensures
        ({
            let kept = selected(encoded, first_seen(encoded));
            &&& first_seen(kept) == Seq::new(kept.len(), |t: int| t)
            &&& selected(kept, first_seen(kept)) == kept
            &&& forall|t: int| 0 <= t < kept.len() ==> merged_index(kept, t) == t
        }),
{
    let kept = selected(encoded, first_seen(encoded));
    assert forall|a: int, b: int| 0 <= a < b < kept.len() implies kept[a] != kept[b] by {
        if kept[a] == kept[b] {
            lemma_first_seen_distinct(encoded, a, b);
        }
    }
    lemma_first_seen_of_distinct(kept);
    assert(selected(kept, first_seen(kept)) =~= kept);
    assert forall|t: int| 0 <= t < kept.len() implies merged_index(kept, t) == t by {
        assert(stands_for(kept, t, t));
        lemma_merged_index_unique(kept, t, t);
    }
}

/// Merges the normals that are stored alike. `encoded[i]` is the quantized
/// form of `normals[i]`, and `faces` holds, for each triangle corner, the
/// place of its normal.
///
/// Gives the kept normals, each the first of those stored like it, in the
/// order of the input; and, for each corner, the number of the kept normal
/// that is stored like the corner's normal.
pub fn merge_identical_normals<T: Copy>(
    normals: &[T],
    encoded: &[QuantizedNormal],
    faces: &[IndexType],
) -> (merged: (Vec<T>, Vec<IndexType>))
    requires
        normals@.len() == encoded@.len(),
        encoded@.len() <= 0x1_0000_0000,
        forall|k: int| 0 <= k < faces@.len() ==> faces@[k] < encoded@.len(),
    ensures
        merged.0@ == selected(normals@, first_seen(encoded@)),
        merged.1@.len() == faces@.len(),
        forall|k: int|
            0 <= k < faces@.len() ==> #[trigger] merged.1@[k] == merged_index(
                encoded@,
                faces@[k] as int,
            ),
        forall|k: int| 0 <= k < faces@.len() ==> #[trigger] merged.1@[k] < merged.0@.len(),
{
    let count = encoded.len();
    let mut mappings: Vec<IndexType> = Vec::new();
    let mut new_normals: Vec<T> = Vec::new();
    let mut i: usize = 0;
    assert(encoded@.take(0) =~= Seq::<QuantizedNormal>::empty());
    while i < count
        invariant
            count == encoded@.len(),
            normals@.len() == count,
            count <= 0x1_0000_0000,
            i <= count,
            mappings@.len() == i,
            new_normals@ == selected(normals@, first_seen(encoded@.take(i as int))),
            forall|a: int|
                0 <= a < i ==> stands_for(encoded@.take(i as int), #[trigger] mappings@[a] as int, a),
        decreases count - i,
    {
        let ghost seen = encoded@.take(i as int);
        let ghost longer = encoded@.take(i + 1);
        proof {
            assert(longer.drop_last() =~= seen);
            lemma_first_seen_places(seen);
            lemma_first_seen_places(longer);
        }
        let mut earlier: Option<usize> = None;
        let mut j: usize = 0;
        while j < i && earlier.is_none()
            invariant
                j <= i < count,
                count == encoded@.len(),
                match earlier {
                    Some(e) => e < i && encoded@[e as int] == encoded@[i as int],
                    None => forall|b: int| 0 <= b < j ==> encoded@[b] != encoded@[i as int],
                },
            decreases i - j + if earlier.is_none() { 1int } else { 0int },
        {
            if encoded[i] == encoded[j] {
                earlier = Some(j);
            } else {
                j = j + 1;
            }
        }
        match earlier {
            Some(e) => {
                proof {
                    assert(longer[e as int] == longer[i as int]);
                    assert(!is_first_seen(longer, i as int));
                    assert(first_seen(longer) == first_seen(seen));
                }
                let index = mappings[e];
                mappings.push(index);
                proof {
                    assert forall|a: int| 0 <= a < i + 1 implies stands_for(
                        longer,
                        #[trigger] mappings@[a] as int,
                        a,
                    ) by {
                        let target = if a < i { a } else { e as int };
                        assert(stands_for(seen, mappings@[target] as int, target));
                        assert(seen[first_seen(seen)[mappings@[target] as int]] == longer[first_seen(seen)[mappings@[target] as int]]);
                    }
                }
            },
            None => {
                proof {
                    assert(is_first_seen(longer, i as int)) by {
                        assert forall|b: int| 0 <= b < i implies longer[b] != longer[i as int] by {
                            assert(encoded@[b] != encoded@[i as int]);
                        }
                    }
                    assert(first_seen(longer) == first_seen(seen).push(i as int));
                }
                let index = new_normals.len();
                mappings.push(index as IndexType);
                new_normals.push(normals[i]);
                proof {
                    assert(new_normals@ =~= selected(normals@, first_seen(longer)));
                    assert forall|a: int| 0 <= a < i + 1 implies stands_for(
                        longer,
                        #[trigger] mappings@[a] as int,
                        a,
                    ) by {
                        if a < i {
                            assert(stands_for(seen, mappings@[a] as int, a));
                            assert(seen[first_seen(seen)[mappings@[a] as int]] == longer[first_seen(seen)[mappings@[a] as int]]);
                        }
                    }
                }
            },
        }
        i = i + 1;
    }
    assert(encoded@.take(count as int) =~= encoded@);
    let mut new_faces: Vec<IndexType> = Vec::new();
    let mut k: usize = 0;
    while k < faces.len()
        invariant
            k <= faces@.len(),
            count == encoded@.len(),
            mappings@.len() == count,
            new_normals@.len() == first_seen(encoded@).len(),
            forall|f: int| 0 <= f < faces@.len() ==> faces@[f] < encoded@.len(),
            forall|a: int| 0 <= a < count ==> stands_for(encoded@, #[trigger] mappings@[a] as int, a),
            new_faces@.len() == k,
            forall|f: int|
                0 <= f < k ==> #[trigger] new_faces@[f] == merged_index(encoded@, faces@[f] as int),
            forall|f: int| 0 <= f < k ==> #[trigger] new_faces@[f] < new_normals@.len(),
        decreases faces@.len() - k,
    {
        let place = faces[k] as usize;
        let index = mappings[place];
        proof {
            assert(stands_for(encoded@, mappings@[place as int] as int, place as int));
            lemma_merged_index_unique(encoded@, index as int, place as int);
        }
        new_faces.push(index);
        k = k + 1;
    }
    (new_normals, new_faces)
}

} // verus!
