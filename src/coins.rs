//! Fewest banknotes that make up an amount.
use vstd::prelude::*;

verus! {

/// The `i`-th banknote value, `0 <= i < 8`: 1, 2, 5, 10, 20, 30, 50, 100.
pub open spec fn note_value(i: nat) -> nat {
    if i == 0 {
        1
    } else if i == 1 {
        2
    } else if i == 2 {
        5
    } else if i == 3 {
        10
    } else if i == 4 {
        20
    } else if i == 5 {
        30
    } else if i == 6 {
        50
    } else {
        100
    }
}

/// The fewest notes that add up to `a`: none for 0, otherwise one note and
/// the fewest for what remains, with the note chosen to make that least.
pub open spec fn min_notes(a: nat) -> nat
    decreases a, 9nat,
{
    if a == 0 {
        0
    } else {
        min_notes_first_of(a, 8)
    }
}

/// For `a >= 1`: the fewest notes that add up to `a` when the first note
/// is one of the first `j` values (at least the first, which is 1).
pub open spec fn min_notes_first_of(a: nat, j: nat) -> nat
    decreases a, j,
{
    if a == 0 {
        0
    } else if j <= 1 {
        1 + min_notes((a - 1) as nat)
    } else {
        let prev = min_notes_first_of(a, (j - 1) as nat);
        let c = note_value((j - 1) as nat);
        if c <= a && 1 + min_notes((a - c) as nat) < prev {
            1 + min_notes((a - c) as nat)
        } else {
            prev
        }
    }
}

proof fn lemma_min_notes_bound(a: nat)
    ensures
        min_notes(a) <= a,
        a >= 2 ==> min_notes(a) < a,
    decreases a,
{
    if a >= 1 {
        lemma_min_notes_bound((a - 1) as nat);
        lemma_first_of_decreasing(a, 8);
        assert(min_notes_first_of(a, 8) <= min_notes_first_of(a, 1));
        if a >= 2 {
            lemma_min_notes_bound((a - 2) as nat);
            assert(min_notes_first_of(a, 8) <= min_notes_first_of(a, 2));
            assert(min_notes_first_of(a, 2) <= 1 + min_notes((a - 2) as nat));
        }
    }
}

proof fn lemma_first_of_decreasing(a: nat, j: nat)
    requires
        a >= 1,
    ensures
        forall|i: nat| i <= j ==> #[trigger] min_notes_first_of(a, j) <= min_notes_first_of(a, i),
    decreases j,
{
    if j > 1 {
        lemma_first_of_decreasing(a, (j - 1) as nat);
    }
}

/// The fewest banknotes of values 1, 2, 5, 10, 20, 30, 50 and 100 that add
/// up to `amount`, by dynamic programming over every amount up to it.
pub fn dp_rec_mc(amount: u32) -> (r: u32)
    ensures
        r == min_notes(amount as nat),
{
    let notes: [u32; 8] = [1, 2, 5, 10, 20, 30, 50, 100];
    let mut dp: Vec<u32> = Vec::new();
    dp.push(0);
    let mut i: u64 = 1;
    while i <= amount as u64
        invariant
            1 <= i,
            i as nat <= amount as nat + 1,
            dp.len() == i,
            forall|k: int| 0 <= k < i ==> dp@[k] == min_notes(k as nat),
            forall|t: int| 0 <= t < 8 ==> notes[t] == note_value(t as nat),
        decreases amount as nat + 1 - i as nat,
    {
        let mut best: u32 = u32::MAX;
        let mut j: usize = 0;
        while j < 8
            invariant
                1 <= i <= amount,
                i <= u32::MAX,
                dp.len() == i,
                forall|k: int| 0 <= k < i ==> dp@[k] == min_notes(k as nat),
                forall|t: int| 0 <= t < 8 ==> notes[t] == note_value(t as nat),
                j <= 8,
                j == 0 ==> best == u32::MAX,
                j >= 1 ==> best == min_notes_first_of(i as nat, j as nat),
            decreases 8 - j,
        {
            let coin = notes[j];
            if coin as u64 <= i {
                proof {
                    lemma_min_notes_bound((i - coin) as nat);
                }
                let candidate = dp[(i - coin as u64) as usize] + 1;
                if candidate < best {
                    best = candidate;
                }
            }
            j = j + 1;
        }
        proof {
            lemma_min_notes_bound(i as nat);
        }
        dp.push(best);
        i = i + 1;
    }
    let r = dp[amount as usize];
    proof {
        lemma_min_notes_bound(amount as nat);
    }
    if r == u32::MAX {
        0
    } else {
        r
    }
}

/// `s` lists banknotes by their index, each below 8.
pub open spec fn is_note_list(s: Seq<nat>) -> bool {
    forall|i: int| 0 <= i < s.len() ==> #[trigger] s[i] < 8
}

/// The value of the banknotes that `s` lists.
pub open spec fn notes_total(s: Seq<nat>) -> nat
    decreases s.len(),
{
    if s.len() == 0 {
        0
    } else {
        notes_total(s.drop_last()) + note_value(s.last())
    }
}

proof fn lemma_first_of_at_most(a: nat, j: nat, i: nat)
    requires
        a >= 1,
        i < j <= 8,
        note_value(i) <= a,
    ensures
        min_notes_first_of(a, j) <= 1 + min_notes((a - note_value(i)) as nat),
    decreases j,
{
    if j > 1 && i < j - 1 {
        lemma_first_of_at_most(a, (j - 1) as nat, i);
    }
}

proof fn lemma_first_of_attained(a: nat, j: nat)
    requires
        a >= 1,
        1 <= j <= 8,
    ensures
        exists|i: nat|
            i < j && note_value(i) <= a && #[trigger] min_notes_first_of(a, j) == 1 + min_notes(
                (a - note_value(i)) as nat,
            ),
    decreases j,
{
    if j == 1 {
        assert(note_value(0) <= a && min_notes_first_of(a, 1) == 1 + min_notes((a - note_value(0)) as nat));
    } else {
        lemma_first_of_attained(a, (j - 1) as nat);
        let i = choose|i: nat|
            i < j - 1 && note_value(i) <= a && #[trigger] min_notes_first_of(a, (j - 1) as nat) == 1
                + min_notes((a - note_value(i)) as nat);
        let c = note_value((j - 1) as nat);
        if c <= a && 1 + min_notes((a - c) as nat) < min_notes_first_of(a, (j - 1) as nat) {
            assert(min_notes_first_of(a, j) == 1 + min_notes((a - note_value((j - 1) as nat)) as nat));
        } else {
            assert(min_notes_first_of(a, j) == 1 + min_notes((a - note_value(i)) as nat));
        }
    }
}

proof fn lemma_min_notes_attained(a: nat)
    ensures
        exists|s: Seq<nat>| is_note_list(s) && notes_total(s) == a && s.len() == min_notes(a),
    decreases a,
{
    if a == 0 {
        assert(is_note_list(Seq::<nat>::empty()) && notes_total(Seq::<nat>::empty()) == 0);
    } else {
        lemma_first_of_attained(a, 8);
        let i = choose|i: nat|
            i < 8 && note_value(i) <= a && #[trigger] min_notes_first_of(a, 8) == 1 + min_notes(
                (a - note_value(i)) as nat,
            );
        let rest = (a - note_value(i)) as nat;
        lemma_min_notes_attained(rest);
        let s0 = choose|s: Seq<nat>| is_note_list(s) && notes_total(s) == rest && s.len() == min_notes(rest);
        let s = s0.push(i);
        assert(s.drop_last() =~= s0);
        assert(is_note_list(s));
        assert(notes_total(s) == a);
    }
}

proof fn lemma_min_notes_optimal(a: nat, s: Seq<nat>)
    requires
        is_note_list(s),
        notes_total(s) == a,
    ensures
        min_notes(a) <= s.len(),
    decreases s.len(),
{
    if s.len() > 0 {
        let c = note_value(s.last());
        assert(s.last() == s[s.len() - 1]);
        assert(is_note_list(s.drop_last()));
        lemma_min_notes_optimal((a - c) as nat, s.drop_last());
        lemma_first_of_at_most(a, 8, s.last());
    }
}

/// [`min_notes`] is the fewest banknotes that add up to an amount: some
/// list of that many notes adds up to it, and no list of fewer does.
pub proof fn lemma_min_notes_is_fewest(a: nat)
    ensures
        exists|s: Seq<nat>| is_note_list(s) && notes_total(s) == a && s.len() == min_notes(a),
        forall|s: Seq<nat>| is_note_list(s) && notes_total(s) == a ==> min_notes(a) <= s.len(),
{
    lemma_min_notes_attained(a);
    assert forall|s: Seq<nat>| is_note_list(s) && notes_total(s) == a implies min_notes(a) <= s.len() by {
        lemma_min_notes_optimal(a, s);
    }
}

} // verus!
