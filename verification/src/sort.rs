use vstd::prelude::*;

verus! {

/// Strict lexicographic order on (key, position) pairs.
pub open spec fn lex_lt(k1: int, t1: int, k2: int, t2: int) -> bool {
    k1 < k2 || (k1 == k2 && t1 < t2)
}

/// `output` is `input` reordered by `perm`, so that the pairs (key, initial
/// position) are strictly increasing: items are sorted by key, and items with
/// equal keys keep their initial relative order.
pub open spec fn is_stable_sort_by_key<T>(
    input: Seq<(usize, T)>,
    output: Seq<(usize, T)>,
    perm: Seq<int>,
) -> bool {
    &&& perm.len() == input.len()
    &&& output.len() == input.len()
    &&& forall|k: int| 0 <= k < output.len() ==> 0 <= #[trigger] perm[k] < input.len()
    &&& forall|k: int| 0 <= k < output.len() ==> #[trigger] output[k] == input[perm[k]]
    &&& forall|k1: int, k2: int|
        0 <= k1 < k2 < output.len() ==> lex_lt(
            #[trigger] output[k1].0 as int,
            perm[k1],
            #[trigger] output[k2].0 as int,
            perm[k2],
        )
}

/// Stable sort of keyed items by their key (the first component).
pub fn stable_sort_by_key<T: Copy>(items: &Vec<(usize, T)>) -> (r: Vec<(usize, T)>)
    ensures
        exists|perm: Seq<int>| is_stable_sort_by_key(items@, r@, perm),
{
    let n = items.len();
    let mut out: Vec<(usize, T)> = Vec::new();
    let mut tags: Vec<usize> = Vec::new();
    for i in 0..n
        invariant
            n == items.len(),
            out.len() == i,
            tags.len() == i,
            forall|k: int| 0 <= k < i ==> #[trigger] tags[k] < i,
            forall|k: int| 0 <= k < i ==> #[trigger] out[k] == items[tags[k] as int],
            forall|k1: int, k2: int|
                0 <= k1 < k2 < i ==> lex_lt(
                    #[trigger] out[k1].0 as int,
                    tags[k1] as int,
                    #[trigger] out[k2].0 as int,
                    tags[k2] as int,
                ),
    {
        let item = items[i];
        let key = item.0;
        let mut pos: usize = 0;
        while pos < out.len() && out[pos].0 <= key
            invariant
                pos <= out.len(),
                out.len() == i,
                forall|k: int| 0 <= k < pos ==> (#[trigger] out[k]).0 <= key,
            decreases out.len() - pos,
        {
            pos = pos + 1;
        }
        proof {
            assert forall|k: int| pos <= k < i implies (#[trigger] out[k]).0 > key by {
                if k > pos {
                    assert(lex_lt(out[pos as int].0 as int, tags[pos as int] as int, out[k].0 as int, tags[k] as int));
                }
            }
            out@.insert_ensures(pos as int, item);
            tags@.insert_ensures(pos as int, i);
        }
        let ghost old_out = out@;
        let ghost old_tags = tags@;
        out.insert(pos, item);
        tags.insert(pos, i);
        proof {
            assert forall|k: int| 0 <= k < i + 1 implies #[trigger] tags[k] < i + 1 && out[k] == items[tags[k] as int] by {
                if k < pos {
                    assert(tags[k] == old_tags[k]);
                } else if k > pos {
                    assert(tags[k] == old_tags[k - 1]);
                    assert(out[k] == old_out[k - 1]);
                }
            }
            assert forall|k1: int, k2: int| 0 <= k1 < k2 < i + 1 implies lex_lt(
                #[trigger] out[k1].0 as int,
                tags[k1] as int,
                #[trigger] out[k2].0 as int,
                tags[k2] as int,
            ) by {
                if k2 < pos {
                    assert(out[k1] == old_out[k1] && out[k2] == old_out[k2]);
                    assert(tags[k1] == old_tags[k1] && tags[k2] == old_tags[k2]);
                } else if k2 == pos {
                    assert(out[k1] == old_out[k1] && tags[k1] == old_tags[k1]);
                } else if k1 < pos {
                    assert(out[k1] == old_out[k1] && tags[k1] == old_tags[k1]);
                    assert(out[k2] == old_out[k2 - 1] && tags[k2] == old_tags[k2 - 1]);
                } else if k1 == pos {
                    assert(out[k2] == old_out[k2 - 1] && tags[k2] == old_tags[k2 - 1]);
                } else {
                    assert(out[k1] == old_out[k1 - 1] && tags[k1] == old_tags[k1 - 1]);
                    assert(out[k2] == old_out[k2 - 1] && tags[k2] == old_tags[k2 - 1]);
                    assert(lex_lt(old_out[k1 - 1].0 as int, old_tags[k1 - 1] as int, old_out[k2 - 1].0 as int, old_tags[k2 - 1] as int));
                }
            }
        }
    }
    let ghost perm = tags@.map_values(|t: usize| t as int);
    assert(is_stable_sort_by_key(items@, out@, perm));
    out
}

} // verus!
