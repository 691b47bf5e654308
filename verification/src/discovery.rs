//! Choosing the replay file of a capture session among the files found on disk.
use vstd::prelude::*;

verus! {

/// The candidate chosen from modification times `times`: among those later than `start`,
/// the first with the latest time.
pub open spec fn latest_from(times: Seq<u128>, start: u128, k: int) -> Option<int>
    decreases k,
{
    if k <= 0 {
        None
    } else {
        let prev = latest_from(times, start, k - 1);
        let t = times[k - 1];
        if t > start && (prev is None || t > times[prev->Some_0]) {
            Some(k - 1)
        } else {
            prev
        }
    }
}

/// The index of the replay to pick: the file modified last, strictly after the session
/// started (the earliest such file among equal times), if any.
pub fn latest_after(times: &[u128], start: u128) -> (r: Option<usize>)
    ensures
        match r {
            Some(i) => latest_from(times@, start, times@.len() as int) == Some(i as int),
            None => latest_from(times@, start, times@.len() as int) is None,
        },
        r matches Some(i) ==> i < times@.len() && times@[i as int] > start
            && forall|j: int| 0 <= j < times@.len() && times@[j] > start ==> times@[j] <= times@[i as int],
{
    let mut best: Option<usize> = None;
    for k in 0..times.len()
        invariant
            match best {
                Some(i) => latest_from(times@, start, k as int) == Some(i as int),
                None => latest_from(times@, start, k as int) is None,
            },
            best matches Some(i) ==> i < k && times@[i as int] > start
                && forall|j: int| 0 <= j < k && times@[j] > start ==> times@[j] <= times@[i as int],
            best is None ==> forall|j: int| 0 <= j < k ==> times@[j] <= start,
    {
        let t = times[k];
        let better = match best {
            Some(i) => t > times[i],
            None => true,
        };
        if t > start && better {
            best = Some(k);
        }
    }
    best
}

} // verus!
