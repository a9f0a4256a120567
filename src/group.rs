use vstd::prelude::*;

verus! {

/// `runs` splits `keys` into maximal runs of equal keys: the half-open ranges are
/// non-empty, cover `keys` in order without gaps, hold one key each, and
/// neighbouring runs hold different keys.
pub open spec fn is_run_partition(keys: Seq<u32>, runs: Seq<(usize, usize)>) -> bool {
    &&& (runs.len() == 0 <==> keys.len() == 0)
    &&& runs.len() > 0 ==> runs[0].0 == 0 && runs[runs.len() - 1].1 == keys.len()
    &&& forall|i: int| 0 <= i < runs.len() ==> #[trigger] runs[i].0 < runs[i].1 <= keys.len()
    &&& forall|i: int| 0 <= i < runs.len() - 1 ==> #[trigger] runs[i].1 == runs[i + 1].0
    &&& forall|i: int, j: int|
        0 <= i < runs.len() && runs[i].0 <= j < runs[i].1 ==> #[trigger] keys[j] == keys[
            #[trigger] runs[i].0 as int
        ]
    &&& forall|i: int| 0 <= i < runs.len() - 1 ==> #[trigger] keys[runs[i].0 as int] != keys[runs[i + 1].0 as int]
}

/// The end of the run of keys equal to `keys[start]` that begins at `start`.
pub fn run_end(keys: &Vec<u32>, start: usize) -> (r: usize)
    requires
        start < keys@.len(),
    ensures
        start < r <= keys@.len(),
        forall|j: int| start <= j < r ==> keys@[j] == keys@[start as int],
        r == keys@.len() || keys@[r as int] != keys@[start as int],
{
    let n = keys.len();
    let key = keys[start];
    let mut i: usize = start + 1;
    while i < n && keys[i] == key
        invariant
            start < i <= keys@.len(),
            n == keys@.len(),
            key == keys@[start as int],
            forall|j: int| start <= j < i ==> keys@[j] == key,
        decreases keys@.len() - i,
    {
        i = i + 1;
    }
    i
}

/// Splits `keys` into its maximal runs of equal keys, as half-open index ranges in
/// order. The keys are not sorted: equal keys that are not adjacent fall in
/// different runs.
pub fn group_runs(keys: &Vec<u32>) -> (r: Vec<(usize, usize)>)
    ensures
        is_run_partition(keys@, r@),
{
    let mut runs: Vec<(usize, usize)> = Vec::new();
    let mut start: usize = 0;
    while start < keys.len()
        invariant
            start <= keys@.len(),
            runs@.len() == 0 <==> start == 0,
            runs@.len() > 0 ==> runs@[0].0 == 0 && runs@[runs@.len() - 1].1 == start,
            start < keys@.len() && runs@.len() > 0 ==> keys@[runs@[runs@.len() - 1].0 as int]
                != keys@[start as int],
            forall|i: int| 0 <= i < runs@.len() ==> #[trigger] runs@[i].0 < runs@[i].1 <= start,
            forall|i: int| 0 <= i < runs@.len() - 1 ==> #[trigger] runs@[i].1 == runs@[i + 1].0,
            forall|i: int, j: int|
                0 <= i < runs@.len() && runs@[i].0 <= j < runs@[i].1 ==> #[trigger] keys@[j]
                    == keys@[#[trigger] runs@[i].0 as int],
            forall|i: int|
                0 <= i < runs@.len() - 1 ==> #[trigger] keys@[runs@[i].0 as int] != keys@[runs@[i
                    + 1].0 as int],
        decreases keys@.len() - start,
    {
        let end = run_end(keys, start);
        runs.push((start, end));
        start = end;
    }
    runs
}

} // verus!
