//! Carrying one file to its destination: which lock stripe guards a name, and whether an
//! existing destination is replaced.

use vstd::prelude::*;

verus! {

/// How many locks guard destination names.
pub const NAME_LOCK_STRIPES: usize = 64;

/// The hash that `std::collections::hash_map::DefaultHasher` (built by `new`/`default`)
/// gives the string `s`.
pub uninterp spec fn default_hash_of_str(s: Seq<char>) -> u64;

/// Hashes `s` with a `DefaultHasher` made by `Default` (through `BuildHasher::hash_one` of
/// `BuildHasherDefault<DefaultHasher>`). The contract claims that the result is
/// `default_hash_of_str(s)`: the std documentation says that every `DefaultHasher` made by
/// `new` or `default` is the same, so equal strings hash equally.
#[verifier::external_body]
fn default_hash(s: &str) -> (h: u64)
    ensures
        h == default_hash_of_str(s@),
{
    std::hash::BuildHasher::hash_one(
        &std::hash::BuildHasherDefault::<std::collections::hash_map::DefaultHasher>::default(),
        s,
    )
}

/// The stripe for the hash `h`: `h` modulo the number of stripes.
pub fn stripe_of_hash(h: u64) -> (r: usize)
    ensures
        r as int == h as int % NAME_LOCK_STRIPES as int,
        r < NAME_LOCK_STRIPES,
{
    (h % 64) as usize
}

/// The lock stripe that guards the destination name `name`: the same for equal names, and
/// below `NAME_LOCK_STRIPES`.
pub fn name_stripe(name: &str) -> (r: usize)
    ensures
        r as int == default_hash_of_str(name@) as int % NAME_LOCK_STRIPES as int,
        r < NAME_LOCK_STRIPES,
{
    stripe_of_hash(default_hash(name))
}

/// What to do with a file whose destination may already exist.
pub enum TransferDecision {
    /// The destination is free: carry the file there.
    Transfer,
    /// The source is newer than the existing destination: remove that, then carry the file.
    ReplaceExisting,
    /// The existing destination is kept and the file is passed over.
    Skip,
}

/// Whether the file is carried when only newer files replace existing ones: always when the
/// destination does not exist; over an existing destination only when both modification
/// times are known and the source's is later.
pub open spec fn replace_newest_spec(dest_exists: bool, src_time: Option<i128>, dest_time: Option<i128>) -> TransferDecision {
    if !dest_exists {
        TransferDecision::Transfer
    } else {
        match (src_time, dest_time) {
            (Some(s), Some(d)) => if s > d {
                TransferDecision::ReplaceExisting
            } else {
                TransferDecision::Skip
            },
            _ => TransferDecision::Skip,
        }
    }
}

/// What to do with a file when only newer files replace existing ones. Times are the
/// modification times (in nanoseconds from the Unix epoch, negative before it), `None` where
/// they could not be read.
pub fn replace_newest_decision(dest_exists: bool, src_time: Option<i128>, dest_time: Option<i128>) -> (r: TransferDecision)
    ensures
        r == replace_newest_spec(dest_exists, src_time, dest_time),
{
    if !dest_exists {
        return TransferDecision::Transfer;
    }
    match (src_time, dest_time) {
        (Some(s), Some(d)) => if s > d {
            TransferDecision::ReplaceExisting
        } else {
            TransferDecision::Skip
        },
        _ => TransferDecision::Skip,
    }
}

} // verus!

verus! {

/// The message for a file that could not be carried: whether it was being moved or copied,
/// its path, and the error's text.
pub open spec fn transfer_error_text(move_files: bool, path: Seq<char>, error: Seq<char>) -> Seq<char> {
    "Ошибка "@ + (if move_files { "перемещения"@ } else { "копирования"@ }) + " файла "@ + path + ": "@
        + error
}

/// The message for a file at `path` that could not be carried, with the error's text.
pub fn transfer_error_message(move_files: bool, path: &str, error: &str) -> (r: String)
    ensures
        r@ == transfer_error_text(move_files, path@, error@),
{
    let a = crate::text::concat("Ошибка ", if move_files { "перемещения" } else { "копирования" });
    let b = crate::text::concat(a.as_str(), " файла ");
    let c = crate::text::concat(b.as_str(), path);
    let d = crate::text::concat(c.as_str(), ": ");
    crate::text::concat(d.as_str(), error)
}

} // verus!

verus! {

/// Whether the modification time `a` is later than `b`; a known time is later than an
/// unknown one, and two unknown times are not ordered.
pub open spec fn newer(a: Option<i128>, b: Option<i128>) -> bool {
    match (a, b) {
        (Some(x), Some(y)) => x > y,
        (Some(_), None) => true,
        _ => false,
    }
}

/// Whether candidate `i` is the one carried to its destination `dests[i]`: it is newer than
/// every earlier candidate for that destination, and no later one is newer than it (the
/// first of the newest).
pub open spec fn newest_at(dests: Seq<Seq<char>>, times: Seq<Option<i128>>, i: int) -> bool {
    forall|j: int|
        #![trigger dests[j]]
        0 <= j < dests.len() && j != i && dests[j] == dests[i] ==> (j < i ==> newer(times[i], times[j])) && (j > i
            ==> !newer(times[j], times[i]))
}

fn newer_exec(a: Option<i128>, b: Option<i128>) -> (r: bool)
    ensures
        r == newer(a, b),
{
    match (a, b) {
        (Some(x), Some(y)) => x > y,
        (Some(_), None) => true,
        _ => false,
    }
}

/// The bucket that the destination `d` falls in among `nb` buckets.
pub open spec fn bucket_of(d: Seq<char>, nb: nat) -> int {
    default_hash_of_str(d) as int % nb as int
}

/// The destinations as plain values.
pub open spec fn dests_view(dests: Seq<String>) -> Seq<Seq<char>> {
    dests.map_values(|s: String| s@)
}

/// Which of the candidate files (candidate `i` goes to `dests[i]` and was last modified at
/// `times[i]`, `None` when unknown) is carried: for each destination, the newest candidate,
/// the first of them when several are equally new.
pub fn newest_per_destination(dests: &Vec<String>, times: &Vec<Option<i128>>) -> (chosen: Vec<bool>)
    requires
        dests@.len() == times@.len(),
    ensures
        chosen@.len() == dests@.len(),
        forall|i: int| 0 <= i < chosen@.len() ==> chosen@[i] == newest_at(dests_view(dests@), times@, i),
{
    let n = dests.len();
    let ghost ds = dests_view(dests@);
    if n == 0 {
        return Vec::new();
    }
    let nb = n;
    // Each destination as characters, and its bucket.
    let mut cs: Vec<Vec<char>> = Vec::new();
    let mut bk: Vec<usize> = Vec::new();
    for i in 0..n
        invariant
            n == dests@.len(),
            nb == n,
            ds == dests_view(dests@),
            cs@.len() == i,
            bk@.len() == i,
            forall|j: int| 0 <= j < i ==> (#[trigger] cs@[j])@ == ds[j],
            forall|j: int| 0 <= j < i ==> #[trigger] bk@[j] as int == bucket_of(ds[j], nb as nat),
    {
        let c = crate::text::chars_of(dests[i].as_str());
        let h = default_hash(dests[i].as_str());
        bk.push((h % (nb as u64)) as usize);
        cs.push(c);
    }
    // The candidates of each bucket.
    let mut buckets: Vec<Vec<usize>> = Vec::new();
    for b in 0..nb
        invariant
            buckets@.len() == b,
            forall|x: int| 0 <= x < b ==> (#[trigger] buckets@[x])@.len() == 0,
    {
        buckets.push(Vec::new());
    }
    for i in 0..n
        invariant
            n == dests@.len(),
            nb == n,
            bk@.len() == n,
            forall|j: int| 0 <= j < n ==> (#[trigger] bk@[j]) < nb,
            buckets@.len() == nb,
            forall|x: int, k: int|
                0 <= x < nb && 0 <= k < buckets@[x]@.len() ==> #[trigger] buckets@[x]@[k] < i && bk@[buckets@[x]@[k] as int] == x,
            forall|j: int| 0 <= j < i ==> #[trigger] buckets@[bk@[j] as int]@.contains(j as usize),
    {
        let b = bk[i];
        let ghost before = buckets@;
        buckets[b].push(i);
        assert forall|j: int| 0 <= j < i + 1 implies #[trigger] buckets@[bk@[j] as int]@.contains(j as usize) by {
            if j < i {
                let x = bk@[j] as int;
                assert(before[x]@.contains(j as usize));
                let k = choose|k: int| 0 <= k < before[x]@.len() && before[x]@[k] == j as usize;
                assert(buckets@[x]@[k] == j as usize);
            } else {
                assert(buckets@[b as int]@[before[b as int]@.len() as int] == i);
            }
        }
    }
    // Each candidate checked against the others of its bucket.
    let mut chosen: Vec<bool> = Vec::new();
    for i in 0..n
        invariant
            n == dests@.len(),
            n == times@.len(),
            nb == n,
            ds == dests_view(dests@),
            cs@.len() == n,
            forall|j: int| 0 <= j < n ==> (#[trigger] cs@[j])@ == ds[j],
            bk@.len() == n,
            forall|j: int| 0 <= j < n ==> #[trigger] bk@[j] as int == bucket_of(ds[j], nb as nat),
            forall|j: int| 0 <= j < n ==> (#[trigger] bk@[j]) < nb,
            buckets@.len() == nb,
            forall|x: int, k: int|
                0 <= x < nb && 0 <= k < buckets@[x]@.len() ==> #[trigger] buckets@[x]@[k] < n && bk@[buckets@[x]@[k] as int] == x,
            forall|j: int| 0 <= j < n ==> #[trigger] buckets@[bk@[j] as int]@.contains(j as usize),
            chosen@.len() == i,
            forall|j: int| 0 <= j < i ==> chosen@[j] == newest_at(ds, times@, j),
    {
        let b = bk[i];
        let bucket = &buckets[b];
        let m = bucket.len();
        let mut ok = true;
        for k in 0..m
            invariant
                n == dests@.len(),
                n == times@.len(),
                i < n,
                cs@.len() == n,
                forall|j: int| 0 <= j < n ==> (#[trigger] cs@[j])@ == ds[j],
                m == bucket@.len(),
                forall|k2: int| 0 <= k2 < m ==> #[trigger] bucket@[k2] < n,
                ok == forall|k2: int|
                    #![trigger bucket@[k2]]
                    0 <= k2 < k ==> {
                        let j = bucket@[k2] as int;
                        (j != i && ds[j] == ds[i as int]) ==> (j < i ==> newer(times@[i as int], times@[j])) && (j > i
                            ==> !newer(times@[j], times@[i as int]))
                    },
        {
            let j = bucket[k];
            if j != i && crate::text::chars_eq(&cs[j], &cs[i]) {
                let good = if j < i {
                    newer_exec(times[i], times[j])
                } else {
                    !newer_exec(times[j], times[i])
                };
                ok = ok && good;
            }
        }
        proof {
            assert forall|x: int, k2: int| 0 <= x < nb && 0 <= k2 < buckets@[x]@.len() implies buckets@[x]@[k2] < n by {}
            if ok {
                assert forall|j: int|
                    #![trigger ds[j]]
                    0 <= j < ds.len() && j != i && ds[j] == ds[i as int] implies (j < i ==> newer(
                        times@[i as int],
                        times@[j],
                    )) && (j > i ==> !newer(times@[j], times@[i as int])) by {
                    assert(bk@[j] as int == bucket_of(ds[j], nb as nat));
                    assert(bk@[i as int] as int == bucket_of(ds[i as int], nb as nat));
                    assert(buckets@[bk@[j] as int]@.contains(j as usize));
                    let k2 = choose|k2: int| 0 <= k2 < bucket@.len() && bucket@[k2] == j as usize;
                    assert(bucket@[k2] == j as usize);
                }
            } else {
                let k2 = choose|k2: int|
                    #![trigger bucket@[k2]]
                    0 <= k2 < m && !({
                        let j = bucket@[k2] as int;
                        (j != i && ds[j] == ds[i as int]) ==> (j < i ==> newer(times@[i as int], times@[j])) && (j > i
                            ==> !newer(times@[j], times@[i as int]))
                    });
                let j = bucket@[k2] as int;
                assert(0 <= j < ds.len());
                assert(ds[j] == ds[j]);
                assert(!newest_at(ds, times@, i as int));
            }
        }
        chosen.push(ok);
    }
    chosen
}

} // verus!

verus! {

/// The file carried to a destination is at least as new as every candidate for it whose
/// modification time is known (and its own time is then known).
pub proof fn lemma_newest_is_latest(dests: Seq<Seq<char>>, times: Seq<Option<i128>>, i: int, j: int)
    requires
        dests.len() == times.len(),
        0 <= i < dests.len(),
        0 <= j < dests.len(),
        newest_at(dests, times, i),
        dests[j] == dests[i],
        times[j] is Some,
    ensures
        times[i] is Some,
        times[i].unwrap() >= times[j].unwrap(),
{
    if j != i {
        assert(dests[j] == dests[j]);
    }
}

/// At most one file is carried to each destination.
pub proof fn lemma_newest_unique(dests: Seq<Seq<char>>, times: Seq<Option<i128>>, i: int, k: int)
    requires
        dests.len() == times.len(),
        0 <= i < dests.len(),
        0 <= k < dests.len(),
        newest_at(dests, times, i),
        newest_at(dests, times, k),
        dests[i] == dests[k],
    ensures
        i == k,
{
    if i < k {
        assert(dests[i] == dests[i]);
        assert(dests[k] == dests[k]);
    } else if k < i {
        assert(dests[i] == dests[i]);
        assert(dests[k] == dests[k]);
    }
}

/// The first of the newest candidates for the destination `d` among the first `m`; `-1`
/// when none of them goes to `d`.
spec fn first_newest(dests: Seq<Seq<char>>, times: Seq<Option<i128>>, d: Seq<char>, m: nat) -> int
    decreases m,
{
    if m == 0 {
        -1
    } else {
        let b = first_newest(dests, times, d, (m - 1) as nat);
        if dests[m - 1] != d {
            b
        } else if b == -1 || newer(times[m - 1], times[b]) {
            m - 1
        } else {
            b
        }
    }
}

proof fn lemma_first_newest(dests: Seq<Seq<char>>, times: Seq<Option<i128>>, d: Seq<char>, m: nat)
    requires
        m <= dests.len(),
        dests.len() == times.len(),
    ensures
        ({
            let b = first_newest(dests, times, d, m);
            &&& (b == -1 <==> forall|j: int| 0 <= j < m ==> dests[j] != d)
            &&& b != -1 ==> {
                &&& 0 <= b < m
                &&& dests[b] == d
                &&& forall|j: int|
                    #![trigger dests[j]]
                    0 <= j < m && j != b && dests[j] == d ==> (j < b ==> newer(times[b], times[j])) && (j > b
                        ==> !newer(times[j], times[b]))
            }
        }),
    decreases m,
{
    if m > 0 {
        lemma_first_newest(dests, times, d, (m - 1) as nat);
        let b0 = first_newest(dests, times, d, (m - 1) as nat);
        let b = first_newest(dests, times, d, m);
        if b0 != -1 {
            assert(dests[b0] == dests[b0]);
        }
        assert forall|j: int|
            #![trigger dests[j]]
            0 <= j < m && j != b && dests[j] == d implies (j < b ==> newer(times[b], times[j])) && (j > b ==> !newer(
                times[j],
                times[b],
            )) by {
            if j < m - 1 {
                assert(dests[j] == dests[j]);
            }
        }
        if b == -1 {
            assert forall|j: int| 0 <= j < m implies dests[j] != d by {
                if j < m - 1 {
                    assert(dests[j] == dests[j]);
                }
            }
        }
    }
}

/// Every destination of a candidate gets a file: some candidate for it is carried.
pub proof fn lemma_newest_exists(dests: Seq<Seq<char>>, times: Seq<Option<i128>>, i: int)
    requires
        dests.len() == times.len(),
        0 <= i < dests.len(),
    ensures
        exists|k: int| 0 <= k < dests.len() && dests[k] == dests[i] && newest_at(dests, times, k),
{
    let d = dests[i];
    lemma_first_newest(dests, times, d, dests.len());
    let b = first_newest(dests, times, d, dests.len());
    assert(b != -1) by {
        assert(dests[i] == d);
    }
    assert(newest_at(dests, times, b));
}

} // verus!
