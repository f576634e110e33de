//! The duplicate validator: which key values occur on more than one line of a log.

use crate::keys::{
    distinct_keys, key_set, key_views, lemma_key_set_step, log_keys, read_keys, text_of, texts,
};
use vstd::hash_set::StringHashSet;
use vstd::prelude::*;
use vstd::seq_lib::lemma_seq_contains_after_push;

verus! {

/// Whether a key value occurs on more than one line.
pub open spec fn occurs_twice(keys: Seq<Option<Seq<char>>>, k: Seq<char>) -> bool {
    exists|i: int, j: int| 0 <= i < j < keys.len() && keys[i] == Some(k) && keys[j] == Some(k)
}

/// The key values that occur more than once among the first `n` keys, each
/// listed once, in the order in which they first recur.
pub open spec fn repeated_keys(keys: Seq<Option<Seq<char>>>, n: nat) -> Seq<Seq<char>>
    decreases n,
{
    if n == 0 {
        Seq::empty()
    } else {
        let earlier = repeated_keys(keys, (n - 1) as nat);
        match keys[n - 1] {
            Some(k) => if keys.take(n - 1).contains(Some(k)) && !earlier.contains(k) {
                earlier.push(k)
            } else {
                earlier
            },
            None => earlier,
        }
    }
}

/// `repeated_keys` lists exactly the key values that occur on more than one
/// line, and none of them twice.
pub proof fn lemma_repeated_keys(keys: Seq<Option<Seq<char>>>, n: nat)
    requires
        n <= keys.len(),
    ensures
        forall|k: Seq<char>| #[trigger]
            repeated_keys(keys, n).contains(k) <==> occurs_twice(keys.take(n as int), k),
        repeated_keys(keys, n).no_duplicates(),
    decreases n,
{
    let out = repeated_keys(keys, n);
    let now = keys.take(n as int);
    if n == 0 {
    } else {
        let m = (n - 1) as nat;
        let earlier = repeated_keys(keys, m);
        let before = keys.take(m as int);
        lemma_repeated_keys(keys, m);
        assert forall|k: Seq<char>| #[trigger] out.contains(k) <==> occurs_twice(now, k) by {
            if out.contains(k) {
                if earlier.contains(k) {
                    assert(occurs_twice(before, k));
                    let (i, j) = choose|i: int, j: int|
                        0 <= i < j < before.len() && before[i] == Some(k) && before[j] == Some(k);
                    assert(now[i] == Some(k) && now[j] == Some(k));
                } else {
                    let p = choose|p: int| 0 <= p < out.len() && out[p] == k;
                    assert(out == earlier.push(k));
                    let i = choose|i: int| 0 <= i < before.len() && before[i] == Some(k);
                    assert(now[i] == Some(k) && now[m as int] == Some(k));
                }
            }
            if occurs_twice(now, k) {
                let (i, j) = choose|i: int, j: int|
                    0 <= i < j < now.len() && now[i] == Some(k) && now[j] == Some(k);
                if j < m {
                    assert(before[i] == Some(k) && before[j] == Some(k));
                    assert(occurs_twice(before, k));
                    assert(earlier.contains(k));
                    let p = choose|p: int| 0 <= p < earlier.len() && earlier[p] == k;
                    assert(out[p] == k);
                } else {
                    assert(before[i] == Some(k));
                    assert(before.contains(Some(k)));
                    if earlier.contains(k) {
                        let p = choose|p: int| 0 <= p < earlier.len() && earlier[p] == k;
                        assert(out[p] == k);
                    } else {
                        assert(out == earlier.push(k));
                        assert(out[earlier.len() as int] == k);
                    }
                }
            }
        }
    }
}

/// The key values found on more than one line of a log.
#[derive(Debug)]
pub struct DuplicateKeys {
    /// Each such value once, in the order in which they first recur.
    pub keys: Vec<String>,
}

/// Lists the key values that occur more than once among `keys`, each once, in
/// the order in which they first recur.
pub fn duplicate_keys(keys: &Vec<Option<String>>) -> (found: Vec<String>)
    ensures
        texts(found@) == repeated_keys(key_views(keys@), keys@.len()),
        texts(found@).no_duplicates(),
        forall|k: Seq<char>| #[trigger]
            texts(found@).contains(k) <==> occurs_twice(key_views(keys@), k),
        found@.len() == 0 <==> distinct_keys(key_views(keys@)),
{
    let ghost all = key_views(keys@);
    let mut seen = StringHashSet::new();
    let mut reported = StringHashSet::new();
    let mut found: Vec<String> = Vec::new();
    let mut i: usize = 0;
    assert(key_set(all.take(0)) =~= Set::<Seq<char>>::empty());
    assert(texts(found@) =~= repeated_keys(all, 0));
    assert(reported@ =~= texts(found@).to_set());
    while i < keys.len()
        invariant
            i <= keys.len(),
            all == key_views(keys@),
            seen@ == key_set(all.take(i as int)),
            texts(found@) == repeated_keys(all, i as nat),
            reported@ == texts(found@).to_set(),
        decreases keys.len() - i,
    {
        proof {
            lemma_key_set_step(all, i as int);
            assert(all[i as int] == text_of(keys@[i as int]));
        }
        match &keys[i] {
            Some(k) => {
                if seen.contains(k.as_str()) {
                    if !reported.contains(k.as_str()) {
                        let ghost listed = texts(found@);
                        reported.insert(k.clone());
                        found.push(k.clone());
                        assert(texts(found@) =~= listed.push(k@));
                        assert(reported@ =~= texts(found@).to_set()) by {
                            assert forall|x: Seq<char>|
                                texts(found@).contains(x) <==> listed.contains(x) || x == k@ by {
                                lemma_seq_contains_after_push(listed, k@, x);
                            }
                        }
                    }
                } else {
                    seen.insert(k.clone());
                }
            },
            None => {},
        }
        i = i + 1;
    }
    proof {
        lemma_repeated_keys(all, all.len());
        assert(all.take(all.len() as int) == all);
        if found@.len() == 0 {
            assert forall|i: int, j: int| 0 <= i < j < all.len() && all[i] is Some implies all[i]
                != all[j] by {
                if all[i] == all[j] {
                    assert(occurs_twice(all, all[i]->0));
                    assert(repeated_keys(all, all.len()).contains(all[i]->0));
                }
            }
        } else {
            let k = texts(found@)[0];
            assert(repeated_keys(all, all.len()).contains(k));
            assert(occurs_twice(all, k));
        }
    }
    found
}

/// Checks that no value of `key` occurs on two lines of a log. Lines that do
/// not parse, and lines without a string under `key`, are passed over. Fails
/// with the values that occur more than once.
pub fn validate_no_duplicates_jsonl(log: &[u8], key: &str) -> (outcome: Result<(), DuplicateKeys>)
    ensures
        outcome is Ok <==> distinct_keys(log_keys(log@, key@)),
        outcome is Err ==> {
            let found = texts(outcome->Err_0.keys@);
            &&& found == repeated_keys(log_keys(log@, key@), log_keys(log@, key@).len())
            &&& found.no_duplicates()
            &&& forall|k: Seq<char>| #[trigger]
                found.contains(k) <==> occurs_twice(log_keys(log@, key@), k)
        },
{
    let keys = read_keys(log, key);
    let found = duplicate_keys(&keys);
    if found.len() == 0 {
        Ok(())
    } else {
        Err(DuplicateKeys { keys: found })
    }
}

} // verus!
