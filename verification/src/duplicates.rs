//! Choice, within a group of similar files, of the file that is kept and the
//! files that are marked as duplicates.

use vstd::prelude::*;
use crate::similarity::{is_grouping, lemma_marks_count_linked_files, linked_files, marks_of};

verus! {

/// The ids of `files`, in order, leaving out those equal to `keep`.
pub open spec fn ids_except(files: Seq<(i32, i32)>, keep: i32) -> Seq<i32>
    decreases files.len(),
{
    if files.len() == 0 {
        Seq::empty()
    } else {
        let rest = ids_except(files.drop_last(), keep);
        if files.last().0 != keep {
            rest.push(files.last().0)
        } else {
            rest
        }
    }
}

/// `k` is the position of the last file with the highest sample rate.
pub open spec fn is_last_highest(files: Seq<(i32, i32)>, k: int) -> bool {
    &&& 0 <= k < files.len()
    &&& forall|j: int| 0 <= j < files.len() ==> #[trigger] files[j].1 <= files[k].1
    &&& forall|j: int| k < j < files.len() ==> #[trigger] files[j].1 < files[k].1
}

/// The outcome for one group: the position of the kept file and the ids of
/// the files to mark as duplicates.
pub struct DuplicateChoice {
    pub keep: usize,
    pub duplicates: Vec<i32>,
}

/// Chooses, among files given as `(id, sample_rate)`, the file to keep: the
/// last one with the highest sample rate. Every file whose id differs from
/// the kept file's id is a duplicate, in the order given. There is nothing
/// to choose from no files.
pub fn select_duplicates(files: &[(i32, i32)]) -> (choice: Option<DuplicateChoice>)
    ensures
        files@.len() == 0 <==> choice is None,
        choice matches Some(c) ==> {
            &&& is_last_highest(files@, c.keep as int)
            &&& c.duplicates@ == ids_except(files@, files@[c.keep as int].0)
        },
{
    if files.len() == 0 {
        return None;
    }
    let mut keep: usize = 0;
    let mut i: usize = 1;
    while i < files.len()
        invariant
            1 <= i <= files@.len(),
            is_last_highest(files@.take(i as int), keep as int),
        decreases files@.len() - i,
    {
        if files[i].1 >= files[keep].1 {
            keep = i;
        }
        i = i + 1;
        assert(files@.take(i as int).drop_last() =~= files@.take(i - 1));
    }
    assert(files@.take(files@.len() as int) =~= files@);
    let keep_id: i32 = files[keep].0;
    let mut duplicates: Vec<i32> = Vec::new();
    let mut j: usize = 0;
    while j < files.len()
        invariant
            j <= files@.len(),
            duplicates@ == ids_except(files@.take(j as int), keep_id),
        decreases files@.len() - j,
    {
        if files[j].0 != keep_id {
            duplicates.push(files[j].0);
        }
        j = j + 1;
        assert(files@.take(j as int).drop_last() =~= files@.take(j - 1));
    }
    Some(DuplicateChoice { keep, duplicates })
}

/// The kept file's id is never among the duplicates, every other id is, and
/// each file is counted once: the duplicates plus the files that share the
/// kept id make up the whole group.
pub proof fn lemma_duplicates_partition(files: Seq<(i32, i32)>, keep: i32)
    ensures
        !ids_except(files, keep).contains(keep),
        forall|j: int|
            0 <= j < files.len() && files[j].0 != keep ==> ids_except(files, keep).contains(
                #[trigger] files[j].0,
            ),
        ids_except(files, keep).len() + files.filter(|f: (i32, i32)| f.0 == keep).len()
            == files.len(),
    decreases files.len(),
{
    broadcast use vstd::seq_lib::group_seq_properties;
    reveal_with_fuel(Seq::filter, 1);
    if files.len() > 0 {
        let prev = files.drop_last();
        lemma_duplicates_partition(prev, keep);
        assert forall|j: int| 0 <= j < files.len() && files[j].0 != keep implies ids_except(
            files,
            keep,
        ).contains(#[trigger] files[j].0) by {
            if j < prev.len() {
                assert(prev[j] == files[j]);
                assert(ids_except(prev, keep).contains(prev[j].0));
            }
        }
    }
}

proof fn lemma_ids_except_absent(files: Seq<(i32, i32)>, keep: i32)
    requires
        forall|p: int| 0 <= p < files.len() ==> #[trigger] files[p].0 != keep,
    ensures
        ids_except(files, keep).len() == files.len(),
    decreases files.len(),
{
    if files.len() > 0 {
        lemma_ids_except_absent(files.drop_last(), keep);
    }
}

/// In a group of files with distinct ids, all files but the kept one are
/// marked: the duplicates number one less than the files.
pub proof fn lemma_all_but_kept_marked(files: Seq<(i32, i32)>, k: int)
    requires
        0 <= k < files.len(),
        forall|p: int, q: int| 0 <= p < q < files.len() ==> #[trigger] files[p].0 != #[trigger] files[q].0,
    ensures
        ids_except(files, files[k].0).len() == files.len() - 1,
    decreases files.len(),
{
    let keep = files[k].0;
    let prev = files.drop_last();
    if k == files.len() - 1 {
        assert forall|p: int| 0 <= p < prev.len() implies #[trigger] prev[p].0 != keep by {
            assert(files[p].0 != files[k].0);
        }
        lemma_ids_except_absent(prev, keep);
    } else {
        assert(prev[k] == files[k]);
        assert forall|p: int, q: int| 0 <= p < q < prev.len() implies #[trigger] prev[p].0
            != #[trigger] prev[q].0 by {
            assert(files[p].0 != files[q].0);
        }
        lemma_all_but_kept_marked(prev, k);
        assert(files.last().0 != keep) by {
            assert(files[k].0 != files[files.len() - 1].0);
        }
    }
}

/// The ids of `files`, in order.
pub open spec fn file_ids(files: Seq<(i32, i32)>) -> Seq<i32> {
    files.map_values(|f: (i32, i32)| f.0)
}

/// How many files the choices mark over a list of groups, each group given
/// by its files as `(id, sample_rate)` and the position of its kept file:
/// in each group of two files or more, those whose id differs from the kept
/// file's.
pub open spec fn marked_over(files: Seq<Seq<(i32, i32)>>, keeps: Seq<int>) -> int
    decreases files.len(),
{
    if files.len() == 0 {
        0
    } else {
        let last = files.last();
        marked_over(files.drop_last(), keeps.drop_last()) + if last.len() >= 2 {
            ids_except(last, last[keeps.last()].0).len() as int
        } else {
            0
        }
    }
}

/// Where the files of each group carry exactly the group's ids, each once,
/// the choices over all groups mark every file of each group of two or more
/// but the kept one: as many files as the grouping's marks.
pub proof fn lemma_marked_over_groups(
    files: Seq<Seq<(i32, i32)>>,
    keeps: Seq<int>,
    groups: Seq<Seq<i32>>,
)
    requires
        files.len() == groups.len(),
        keeps.len() == groups.len(),
        forall|g: int| 0 <= g < groups.len() ==> file_ids(#[trigger] files[g]) == groups[g],
        forall|g: int| 0 <= g < groups.len() ==> #[trigger] groups[g].no_duplicates(),
        forall|g: int|
            0 <= g < groups.len() && #[trigger] groups[g].len() >= 2 ==> 0 <= keeps[g]
                < groups[g].len(),
    ensures
        marked_over(files, keeps) == marks_of(groups),
    decreases groups.len(),
{
    if groups.len() > 0 {
        let n: int = groups.len() - 1;
        let pf = files.drop_last();
        let pk = keeps.drop_last();
        let pg = groups.drop_last();
        assert forall|g: int| 0 <= g < pg.len() implies file_ids(#[trigger] pf[g]) == pg[g] by {
            assert(pf[g] == files[g]);
            assert(pg[g] == groups[g]);
        }
        assert forall|g: int| 0 <= g < pg.len() implies #[trigger] pg[g].no_duplicates() by {
            assert(pg[g] == groups[g]);
        }
        assert forall|g: int| 0 <= g < pg.len() && #[trigger] pg[g].len() >= 2 implies 0 <= pk[g]
            < pg[g].len() by {
            assert(pg[g] == groups[g]);
            assert(pk[g] == keeps[g]);
        }
        lemma_marked_over_groups(pf, pk, pg);
        let last = files[n];
        assert(file_ids(last) == groups[n]);
        assert(last.len() == groups[n].len());
        if last.len() >= 2 {
            assert(groups[n].no_duplicates());
            assert forall|p: int, q: int| 0 <= p < q < last.len() implies #[trigger] last[p].0
                != #[trigger] last[q].0 by {
                assert(file_ids(last)[p] == last[p].0);
                assert(file_ids(last)[q] == last[q].0);
            }
            lemma_all_but_kept_marked(last, keeps[n]);
        }
    }
}

/// Choosing the duplicates in each group of the grouping of the similarity
/// pairs marks as many files as some pair links to another file, less the
/// number of groups: in each connected part of the similarity graph, every
/// file but the kept one.
pub proof fn lemma_marked_files_count(
    pairs: Seq<(i32, i32)>,
    groups: Seq<Seq<i32>>,
    files: Seq<Seq<(i32, i32)>>,
    keeps: Seq<int>,
)
    requires
        is_grouping(pairs, groups),
        files.len() == groups.len(),
        keeps.len() == groups.len(),
        forall|g: int| 0 <= g < groups.len() ==> file_ids(#[trigger] files[g]) == groups[g],
        forall|g: int| 0 <= g < groups.len() ==> 0 <= #[trigger] keeps[g] < groups[g].len(),
    ensures
        marked_over(files, keeps) == linked_files(pairs).len() - groups.len(),
{
    lemma_marked_over_groups(files, keeps, groups);
    lemma_marks_count_linked_files(pairs, groups);
}

} // verus!
