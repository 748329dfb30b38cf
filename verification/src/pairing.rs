//! The comparison tasks of one page of files: each file against the files
//! after it on the page, then against its history (earlier fingerprinted
//! files).

use vstd::prelude::*;
use crate::paging::{min_of, HISTORY_CAP};

verus! {

/// The tasks of the file at position `i`: `(ids[i], ids[j])` for each later
/// position `j` on the page, then `(ids[i], h)` for each `h` of its history.
pub open spec fn file_tasks(ids: Seq<i32>, history: Seq<Seq<i32>>, i: int) -> Seq<(i32, i32)> {
    Seq::new((ids.len() - i - 1) as nat, |j: int| (ids[i], ids[i + 1 + j])) + Seq::new(
        history[i].len(),
        |j: int| (ids[i], history[i][j]),
    )
}

/// The tasks of the first `n` files of the page, file after file.
pub open spec fn tasks_upto(ids: Seq<i32>, history: Seq<Seq<i32>>, n: int) -> Seq<(i32, i32)>
    decreases n,
{
    if n <= 0 {
        Seq::empty()
    } else {
        tasks_upto(ids, history, n - 1) + file_tasks(ids, history, n - 1)
    }
}

/// The number of tasks of the first `n` files: for file `i`, the files after
/// it on the page and the files of its history.
pub open spec fn count_upto(ids_len: int, history: Seq<Seq<i32>>, n: int) -> int
    decreases n,
{
    if n <= 0 {
        0
    } else {
        count_upto(ids_len, history, n - 1) + (ids_len - (n - 1) - 1) + history[n - 1].len()
    }
}

/// Lists of histories as their contents.
pub open spec fn histories(history: Seq<Vec<i32>>) -> Seq<Seq<i32>> {
    history.map_values(|h: Vec<i32>| h@)
}

/// The total length of the histories.
pub open spec fn history_total(history: Seq<Seq<i32>>) -> int
    decreases history.len(),
{
    if history.len() == 0 {
        0
    } else {
        history_total(history.drop_last()) + history.last().len()
    }
}

/// The tasks of the first `n` files number, for file `i`, its `ids_len - i - 1`
/// pairs with later files and its history's entries: in closed form,
/// `n * ids_len - n * (n + 1) / 2` plus the entries of the first `n`
/// histories (stated doubled, free of division).
pub proof fn lemma_count_upto_closed(ids_len: int, history: Seq<Seq<i32>>, n: int)
    requires
        0 <= n <= ids_len,
        n <= history.len(),
    ensures
        2 * count_upto(ids_len, history, n) == 2 * n * ids_len - n * (n + 1) + 2 * history_total(
            history.take(n),
        ),
    decreases n,
{
    if n == 0 {
        assert(history.take(0) =~= Seq::<Seq<i32>>::empty());
    } else {
        lemma_count_upto_closed(ids_len, history, n - 1);
        assert(history.take(n).drop_last() =~= history.take(n - 1));
        assert(history.take(n).last() == history[n - 1]);
        assert(2 * n * ids_len - n * (n + 1) == 2 * (n - 1) * ids_len - (n - 1) * n + 2 * (ids_len
            - n)) by (nonlinear_arith);
    }
}

/// A page of `n` files yields `n * (n - 1) / 2` comparisons among its own
/// files, one for each two of them, and one comparison per history entry;
/// the reported total is that number.
pub proof fn lemma_task_count_closed_form(ids: Seq<i32>, history: Seq<Seq<i32>>)
    requires
        history.len() == ids.len(),
    ensures
        count_upto(ids.len() as int, history, ids.len() as int) == (ids.len() * (ids.len() - 1))
            / 2 + history_total(history),
        tasks_upto(ids, history, ids.len() as int).len() == (ids.len() * (ids.len() - 1)) / 2
            + history_total(history),
{
    let n: int = ids.len() as int;
    lemma_count_upto_closed(n, history, n);
    assert(history.take(n) =~= history);
    let c = count_upto(n, history, n);
    let t = history_total(history);
    assert(2 * n * n - n * (n + 1) == n * (n - 1)) by (nonlinear_arith);
    assert(n * (n - 1) == 2 * (c - t));
    assert((n * (n - 1)) / 2 == c - t);
    lemma_task_count_matches(ids, history, n);
}

proof fn lemma_count_monotone(ids_len: int, history: Seq<Seq<i32>>, m: int, n: int)
    requires
        0 <= m <= n <= ids_len,
        n <= history.len(),
    ensures
        count_upto(ids_len, history, m) <= count_upto(ids_len, history, n),
    decreases n - m,
{
    if m < n {
        lemma_count_monotone(ids_len, history, m, n - 1);
    }
}

/// The number of comparisons on a page: the progress total that is
/// reported before the comparisons start.
pub fn count_page_tasks(page_ids: &[i32], history: &[Vec<i32>]) -> (total: usize)
    requires
        history@.len() == page_ids@.len(),
        count_upto(page_ids@.len() as int, histories(history@), page_ids@.len() as int)
            <= usize::MAX,
    ensures
        total == count_upto(page_ids@.len() as int, histories(history@), page_ids@.len() as int),
        total == (page_ids@.len() * (page_ids@.len() - 1)) / 2 + history_total(histories(history@)),
{
    proof {
        lemma_task_count_closed_form(page_ids@, histories(history@));
    }
    let ghost hs = histories(history@);
    let n: usize = page_ids.len();
    let mut total: usize = 0;
    let mut i: usize = 0;
    while i < n
        invariant
            n == page_ids@.len(),
            history@.len() == n,
            hs == histories(history@),
            count_upto(n as int, hs, n as int) <= usize::MAX,
            i <= n,
            total == count_upto(n as int, hs, i as int),
        decreases n - i,
    {
        proof {
            lemma_count_monotone(n as int, hs, i + 1, n as int);
            assert(hs[i as int] == history@[i as int]@);
        }
        total = total + (n - i - 1) + history[i].len();
        i = i + 1;
    }
    total
}

/// The comparisons of a page, in the order in which they are handed out.
pub fn page_tasks(page_ids: &[i32], history: &[Vec<i32>]) -> (tasks: Vec<(i32, i32)>)
    requires
        history@.len() == page_ids@.len(),
        count_upto(page_ids@.len() as int, histories(history@), page_ids@.len() as int)
            <= usize::MAX,
    ensures
        tasks@ == tasks_upto(page_ids@, histories(history@), page_ids@.len() as int),
        tasks@.len() == (page_ids@.len() * (page_ids@.len() - 1)) / 2 + history_total(
            histories(history@),
        ),
{
    proof {
        lemma_task_count_closed_form(page_ids@, histories(history@));
    }
    let ghost hs = histories(history@);
    let n: usize = page_ids.len();
    let mut tasks: Vec<(i32, i32)> = Vec::new();
    let mut i: usize = 0;
    while i < n
        invariant
            n == page_ids@.len(),
            history@.len() == n,
            hs == histories(history@),
            i <= n,
            tasks@ == tasks_upto(page_ids@, hs, i as int),
        decreases n - i,
    {
        let ghost before = tasks@;
        let file1: i32 = page_ids[i];
        let mut j: usize = i + 1;
        while j < n
            invariant
                n == page_ids@.len(),
                i < n,
                i + 1 <= j <= n,
                file1 == page_ids@[i as int],
                tasks@ == before + Seq::new(
                    (j - i - 1) as nat,
                    |k: int| (page_ids@[i as int], page_ids@[i + 1 + k]),
                ),
            decreases n - j,
        {
            tasks.push((file1, page_ids[j]));
            j = j + 1;
            assert(tasks@ =~= before + Seq::new(
                (j - i - 1) as nat,
                |k: int| (page_ids@[i as int], page_ids@[i + 1 + k]),
            ));
        }
        let ghost middle = tasks@;
        let hist = &history[i];
        let mut k: usize = 0;
        while k < hist.len()
            invariant
                hist@ == history@[i as int]@,
                k <= hist@.len(),
                file1 == page_ids@[i as int],
                tasks@ == middle + Seq::new(k as nat, |t: int| (page_ids@[i as int], hist@[t])),
            decreases hist@.len() - k,
        {
            tasks.push((file1, hist[k]));
            k = k + 1;
            assert(tasks@ =~= middle + Seq::new(k as nat, |t: int| (page_ids@[i as int], hist@[t])));
        }
        proof {
            assert(hs[i as int] == hist@);
            assert(tasks@ =~= tasks_upto(page_ids@, hs, i + 1));
        }
        i = i + 1;
    }
    tasks
}

/// The progress total matches the work handed out: a page yields exactly as
/// many comparisons as were counted for it.
pub proof fn lemma_task_count_matches(ids: Seq<i32>, history: Seq<Seq<i32>>, n: int)
    requires
        0 <= n <= ids.len(),
        n <= history.len(),
    ensures
        tasks_upto(ids, history, n).len() == count_upto(ids.len() as int, history, n),
    decreases n,
{
    if n > 0 {
        lemma_task_count_matches(ids, history, n - 1);
    }
}

/// Every two files of a page are compared, the earlier one first.
pub proof fn lemma_page_pairs_compared(ids: Seq<i32>, history: Seq<Seq<i32>>, i: int, j: int)
    requires
        0 <= i < j < ids.len(),
        history.len() == ids.len(),
    ensures
        tasks_upto(ids, history, ids.len() as int).contains((ids[i], ids[j])),
{
    lemma_tasks_prefix_kept(ids, history, i + 1, ids.len() as int);
    let ft = file_tasks(ids, history, i);
    assert(ft[j - i - 1] == (ids[i], ids[j]));
    let before = tasks_upto(ids, history, i);
    let all = tasks_upto(ids, history, i + 1);
    assert(all == before + ft);
    assert(all[before.len() + j - i - 1] == (ids[i], ids[j]));
    let full = tasks_upto(ids, history, ids.len() as int);
    assert(full[before.len() + j - i - 1] == (ids[i], ids[j]));
}

/// `t` pairs one of the first `n` files of the page with a file after it on
/// the page.
pub open spec fn pairs_within_page(ids: Seq<i32>, n: int, t: (i32, i32)) -> bool {
    exists|i: int, j: int| #![trigger ids[i], ids[j]] 0 <= i < n && i < j < ids.len() && t == (ids[i], ids[j])
}

/// `t` pairs one of the first `n` files of the page with a file of its
/// history.
pub open spec fn pairs_with_history(
    ids: Seq<i32>,
    history: Seq<Seq<i32>>,
    n: int,
    t: (i32, i32),
) -> bool {
    exists|i: int, k: int|
        #![trigger ids[i], history[i][k]]
        0 <= i < n && 0 <= k < history[i].len() && t == (ids[i], history[i][k])
}

proof fn lemma_tasks_upto_contains(ids: Seq<i32>, history: Seq<Seq<i32>>, n: int, t: (i32, i32))
    requires
        0 <= n <= ids.len(),
        history.len() == ids.len(),
    ensures
        tasks_upto(ids, history, n).contains(t) <==> (pairs_within_page(ids, n, t)
            || pairs_with_history(ids, history, n, t)),
    decreases n,
{
    broadcast use vstd::seq_lib::lemma_seq_concat_contains_all_elements;
    if n == 0 {
        assert(tasks_upto(ids, history, n) =~= Seq::<(i32, i32)>::empty());
    } else {
        let m: int = n - 1;
        lemma_tasks_upto_contains(ids, history, m, t);
        let before = tasks_upto(ids, history, m);
        let later = Seq::new((ids.len() - m - 1) as nat, |j: int| (ids[m], ids[m + 1 + j]));
        let past = Seq::new(history[m].len(), |j: int| (ids[m], history[m][j]));
        assert(file_tasks(ids, history, m) == later + past);
        assert(tasks_upto(ids, history, n) == before + (later + past));
        if later.contains(t) {
            let jj: int = choose|jj: int| 0 <= jj < later.len() && later[jj] == t;
            assert(t == (ids[m], ids[m + 1 + jj]));
            assert(pairs_within_page(ids, n, t));
        }
        if past.contains(t) {
            let k: int = choose|k: int| 0 <= k < past.len() && past[k] == t;
            assert(t == (ids[m], history[m][k]));
            assert(pairs_with_history(ids, history, n, t));
        }
        if before.contains(t) {
            if pairs_within_page(ids, m, t) {
                let (i, j) = choose|i: int, j: int|
                    #![trigger ids[i], ids[j]]
                    0 <= i < m && i < j < ids.len() && t == (ids[i], ids[j]);
                assert(pairs_within_page(ids, n, t));
            } else {
                let (i, k) = choose|i: int, k: int|
                    #![trigger ids[i], history[i][k]]
                    0 <= i < m && 0 <= k < history[i].len() && t == (ids[i], history[i][k]);
                assert(pairs_with_history(ids, history, n, t));
            }
        }
        if pairs_within_page(ids, n, t) {
            let (i, j) = choose|i: int, j: int|
                #![trigger ids[i], ids[j]]
                0 <= i < n && i < j < ids.len() && t == (ids[i], ids[j]);
            if i < m {
                assert(pairs_within_page(ids, m, t));
            } else {
                assert(later[j - m - 1] == t);
                assert(later.contains(t));
            }
        }
        if pairs_with_history(ids, history, n, t) {
            let (i, k) = choose|i: int, k: int|
                #![trigger ids[i], history[i][k]]
                0 <= i < n && 0 <= k < history[i].len() && t == (ids[i], history[i][k]);
            if i < m {
                assert(pairs_with_history(ids, history, m, t));
            } else {
                assert(past[k] == t);
                assert(past.contains(t));
            }
        }
    }
}

/// The comparisons of a page are exactly the pairs of a file of the page
/// with a file after it on the page, and the pairs of a file of the page
/// with a file of its history; there are as many of them as were counted.
pub proof fn lemma_page_tasks_exact(ids: Seq<i32>, history: Seq<Seq<i32>>, t: (i32, i32))
    requires
        history.len() == ids.len(),
    ensures
        tasks_upto(ids, history, ids.len() as int).contains(t) <==> (pairs_within_page(
            ids,
            ids.len() as int,
            t,
        ) || pairs_with_history(ids, history, ids.len() as int, t)),
        tasks_upto(ids, history, ids.len() as int).len() == count_upto(
            ids.len() as int,
            history,
            ids.len() as int,
        ),
{
    lemma_tasks_upto_contains(ids, history, ids.len() as int, t);
    lemma_task_count_matches(ids, history, ids.len() as int);
}

/// Where each comparison of a page stands: the comparisons of the file at
/// position `i` start after those of the files before it, with its pairs
/// with the later files of the page in page order, `(ids[i], ids[i + 1 + j])`,
/// then one pair per entry of its history, `(ids[i], history[i][k])`.
pub proof fn lemma_page_task_positions(ids: Seq<i32>, history: Seq<Seq<i32>>, i: int)
    requires
        history.len() == ids.len(),
        0 <= i < ids.len(),
    ensures
        forall|j: int|
            0 <= j < ids.len() - i - 1 ==> #[trigger] tasks_upto(ids, history, ids.len() as int)[count_upto(
                ids.len() as int,
                history,
                i,
            ) + j] == (ids[i], ids[i + 1 + j]),
        forall|k: int|
            0 <= k < history[i].len() ==> #[trigger] tasks_upto(ids, history, ids.len() as int)[count_upto(
                ids.len() as int,
                history,
                i,
            ) + (ids.len() - i - 1) + k] == (ids[i], history[i][k]),
        count_upto(ids.len() as int, history, i + 1) == count_upto(ids.len() as int, history, i) + (
        ids.len() - i - 1) + history[i].len(),
{
    let n: int = ids.len() as int;
    lemma_task_count_matches(ids, history, i);
    lemma_tasks_prefix_kept(ids, history, i + 1, n);
    let before = tasks_upto(ids, history, i);
    let ft = file_tasks(ids, history, i);
    assert(tasks_upto(ids, history, i + 1) == before + ft);
    let all = tasks_upto(ids, history, n);
    assert forall|j: int| 0 <= j < n - i - 1 implies #[trigger] all[count_upto(n, history, i) + j]
        == (ids[i], ids[i + 1 + j]) by {
        assert(ft[j] == (ids[i], ids[i + 1 + j]));
        assert(tasks_upto(ids, history, i + 1)[before.len() + j] == ft[j]);
    }
    assert forall|k: int| 0 <= k < history[i].len() implies #[trigger] all[count_upto(n, history, i)
        + (n - i - 1) + k] == (ids[i], history[i][k]) by {
        assert(ft[(n - i - 1) + k] == (ids[i], history[i][k]));
        assert(tasks_upto(ids, history, i + 1)[before.len() + (n - i - 1) + k] == ft[(n - i - 1)
            + k]);
    }
}

proof fn lemma_tasks_prefix_kept(ids: Seq<i32>, history: Seq<Seq<i32>>, m: int, n: int)
    requires
        0 <= m <= n,
    ensures
        tasks_upto(ids, history, m).len() <= tasks_upto(ids, history, n).len(),
        forall|t: int|
            0 <= t < tasks_upto(ids, history, m).len() ==> #[trigger] tasks_upto(ids, history, n)[t]
                == tasks_upto(ids, history, m)[t],
    decreases n - m,
{
    if m < n {
        lemma_tasks_prefix_kept(ids, history, m, n - 1);
    }
}

/// The histories of the files of a page that starts at position `k` of the
/// list `s` of fingerprinted files: for the page's `i`-th file, the files
/// before it in the list, up to the cap.
pub open spec fn page_histories(s: Seq<i32>, k: int, n: int) -> Seq<Seq<i32>> {
    Seq::new(n as nat, |i: int| s.take(min_of(k + i, HISTORY_CAP as int)))
}

/// The page numbered `p` of a walk over `s` in pages of `m` files.
pub open spec fn walk_page(s: Seq<i32>, m: int, p: int) -> Seq<i32> {
    s.subrange(p * m, min_of(p * m + m, s.len() as int))
}

/// With at most as many files as the history cap, chaining the walk over
/// the files with the history reads compares every two files: for files at
/// positions `a < b` of the list, some page of the walk hands out the
/// comparison of `s[b]` with `s[a]`.
pub proof fn lemma_all_files_compared(s: Seq<i32>, m: int, a: int, b: int)
    requires
        m > 0,
        s.len() <= HISTORY_CAP,
        0 <= a < b < s.len(),
    ensures
        exists|p: int|
            0 <= p && p * m < s.len() && (#[trigger] tasks_upto(
                walk_page(s, m, p),
                page_histories(s, p * m, walk_page(s, m, p).len() as int),
                walk_page(s, m, p).len() as int,
            )).contains((s[b], s[a])),
{
    let p: int = b / m;
    assert(p * m <= b && b < p * m + m && p >= 0) by (nonlinear_arith)
        requires
            p == b / m,
            m > 0,
            b >= 0,
    ;
    let k: int = p * m;
    let page = walk_page(s, m, p);
    let n: int = page.len() as int;
    let hist = page_histories(s, k, n);
    let i: int = b - k;
    assert(0 <= i < n);
    assert(page[i] == s[b]);
    assert(hist[i] == s.take(b));
    assert(hist[i][a] == s[a]);
    let ft = file_tasks(page, hist, i);
    let at: int = (n - i - 1) + a;
    assert(ft[at] == (s[b], s[a]));
    let before = tasks_upto(page, hist, i);
    assert(tasks_upto(page, hist, i + 1) == before + ft);
    assert(tasks_upto(page, hist, i + 1)[before.len() + at] == (s[b], s[a]));
    lemma_tasks_prefix_kept(page, hist, i + 1, n);
    let all = tasks_upto(page, hist, n);
    assert(all[before.len() + at] == (s[b], s[a]));
    assert(all.contains((s[b], s[a])));
}

} // verus!
