//! Counting the distinct fields of a comma-separated text.
use crate::text::{chars_of, same_chars, split_fields, split_on};
use vstd::prelude::*;

verus! {

proof fn lemma_to_set_extend(s: Seq<Seq<char>>, i: int)
    requires
        0 <= i < s.len(),
    ensures
        s.subrange(0, i + 1).to_set() == s.subrange(0, i).to_set().insert(s[i]),
{
    assert forall|x: Seq<char>| #[trigger] s.subrange(0, i + 1).to_set().contains(x) <==> s.subrange(
        0,
        i,
    ).to_set().insert(s[i]).contains(x) by {
        if s.subrange(0, i + 1).contains(x) {
            let k = choose|k: int| 0 <= k < i + 1 && #[trigger] s.subrange(0, i + 1)[k] == x;
            if k < i {
                assert(s.subrange(0, i)[k] == x);
            }
        }
        if s.subrange(0, i).contains(x) {
            let k = choose|k: int| 0 <= k < i && #[trigger] s.subrange(0, i)[k] == x;
            assert(s.subrange(0, i + 1)[k] == x);
        }
        if x == s[i] {
            assert(s.subrange(0, i + 1)[i] == x);
        }
    }
    assert(s.subrange(0, i + 1).to_set() =~= s.subrange(0, i).to_set().insert(s[i]));
}

/// The number of distinct fields of `input_str` between commas.
pub fn new_count_distinct(input_str: &str) -> (r: usize)
    ensures
        r == split_on(input_str@, ',').to_set().len(),
{
    let chars = chars_of(input_str);
    let fields = split_fields(&chars, ',');
    let ghost parts = split_on(input_str@, ',');
    let mut seen: Vec<Vec<char>> = Vec::new();
    let ghost mut seen_v: Seq<Seq<char>> = Seq::empty();
    let mut i: usize = 0;
    assert(parts.subrange(0, 0).to_set() =~= Set::<Seq<char>>::empty());
    assert(seen_v.to_set() =~= Set::<Seq<char>>::empty());
    while i < fields.len()
        invariant
            fields.len() == parts.len(),
            forall|j: int| 0 <= j < fields.len() ==> #[trigger] fields@[j]@ == parts[j],
            i <= fields.len(),
            seen.len() == seen_v.len(),
            forall|j: int| 0 <= j < seen.len() ==> #[trigger] seen@[j]@ == seen_v[j],
            seen_v.no_duplicates(),
            seen_v.to_set() == parts.subrange(0, i as int).to_set(),
        decreases fields.len() - i,
    {
        let mut found = false;
        let mut j: usize = 0;
        while j < seen.len()
            invariant
                i < fields.len(),
                fields.len() == parts.len(),
                forall|t: int| 0 <= t < fields.len() ==> #[trigger] fields@[t]@ == parts[t],
                seen.len() == seen_v.len(),
                forall|t: int| 0 <= t < seen.len() ==> #[trigger] seen@[t]@ == seen_v[t],
                j <= seen.len(),
                found <==> exists|t: int| 0 <= t < j && #[trigger] seen_v[t] == parts[i as int],
            decreases seen.len() - j,
        {
            if same_chars(&seen[j], &fields[i]) {
                found = true;
            }
            j = j + 1;
        }
        proof {
            lemma_to_set_extend(parts, i as int);
        }
        if !found {
            let ghost old_v = seen_v;
            seen.push(fields[i].clone());
            proof {
                seen_v = seen_v.push(parts[i as int]);
                assert(seen_v.to_set() =~= old_v.to_set().insert(parts[i as int])) by {
                    assert forall|x: Seq<char>| #[trigger] seen_v.contains(x) <==> old_v.contains(x)
                        || x == parts[i as int] by {
                        if old_v.contains(x) {
                            let k = choose|k: int| 0 <= k < old_v.len() && #[trigger] old_v[k] == x;
                            assert(seen_v[k] == x);
                        }
                        if x == parts[i as int] {
                            assert(seen_v[old_v.len() as int] == x);
                        }
                    }
                }
            }
        } else {
            proof {
                let t = choose|t: int| 0 <= t < seen_v.len() && #[trigger] seen_v[t] == parts[i as int];
                assert(seen_v.to_set().contains(parts[i as int])) by {
                    assert(seen_v.contains(parts[i as int]));
                }
                assert(seen_v.to_set().insert(parts[i as int]) =~= seen_v.to_set());
            }
        }
        i = i + 1;
    }
    proof {
        assert(parts.subrange(0, parts.len() as int) =~= parts);
        seen_v.unique_seq_to_set();
    }
    seen.len()
}

} // verus!
