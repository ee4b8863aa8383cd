//! The groups of a map, listed in order and counted.
use crate::grouping;
use crate::groups;
use crate::model::{FileEntry, FileView};
use crate::textmap::TextMap;
use std::collections::BTreeMap;
use vstd::prelude::*;

verus! {

/// What a list of groups by size is.
pub open spec fn sized_list(s: Seq<(u64, &Vec<FileEntry>)>) -> Seq<(u64, Seq<FileView>)> {
    s.map_values(|p: (u64, &Vec<FileEntry>)| (p.0, p.1.deep_view()))
}

/// What a list of groups by name is.
pub open spec fn named_list(s: Seq<(&String, &Vec<FileEntry>)>) -> Seq<
    (Seq<char>, Seq<FileView>),
> {
    s.map_values(|p: (&String, &Vec<FileEntry>)| (p.0@, p.1.deep_view()))
}

/// The groups of files by size, in the order of the sizes.
pub fn list_by_size<'a>(m: &'a BTreeMap<u64, Vec<FileEntry>>) -> (r: Vec<
    (u64, &'a Vec<FileEntry>),
>)
    ensures
        sized_list(r@) == groups::by_size(grouping::contents(m@)),
        grouping::lists_keys(grouping::keys_of(grouping::contents(m@)), grouping::contents(m@)),
{
    let keys: Vec<u64> = grouping::keys_in_order(m);
    let ghost c = grouping::contents(m@);
    proof {
        assert forall|k: u64| #[trigger] keys@.contains(k) <==> c.contains_key(k) by {
            assert(m@.contains_key(k) == keys@.contains(k));
        }
        grouping::lemma_keys_are(keys@, c);
    }
    let mut r: Vec<(u64, &'a Vec<FileEntry>)> = Vec::new();
    let mut i: usize = 0;
    while i < keys.len()
        invariant
            i <= keys.len(),
            c == grouping::contents(m@),
            grouping::lists_keys(keys@, m@),
            keys@ == grouping::keys_of(c),
            sized_list(r@) == groups::by_size(c).take(i as int),
        decreases keys.len() - i,
    {
        let k: u64 = keys[i];
        assert(keys@.contains(k));
        let ghost before = sized_list(r@);
        if let Some(files) = m.get(&k) {
            r.push((k, files));
            assert(sized_list(r@) =~= before.push((k, c[k])));
        }
        i += 1;
        assert(groups::by_size(c).take(i as int) =~= before.push((k, c[k])));
    }
    assert(groups::by_size(c).take(keys@.len() as int) =~= groups::by_size(c));
    r
}

/// The groups of files by name, in the order of the names.
pub fn list_by_name<'a>(m: &'a TextMap<Vec<FileEntry>>) -> (r: Vec<
    (&'a String, &'a Vec<FileEntry>),
>)
    ensures
        named_list(r@) == groups::by_name(grouping::contents(m@)),
        crate::textmap::lists_keys(
            crate::textmap::keys_of(grouping::contents(m@)),
            grouping::contents(m@),
        ),
{
    let n: usize = m.len();
    let ghost c = grouping::contents(m@);
    let ghost keys = crate::textmap::keys_of(m@);
    proof {
        assert forall|k: Seq<char>| #[trigger] keys.contains(k) <==> c.contains_key(k) by {
            assert(m@.contains_key(k) == keys.contains(k));
        }
        crate::textmap::lemma_keys_are(keys, c);
    }
    let mut r: Vec<(&'a String, &'a Vec<FileEntry>)> = Vec::new();
    let mut i: usize = 0;
    while i < n
        invariant
            i <= n,
            n == keys.len(),
            c == grouping::contents(m@),
            keys == crate::textmap::keys_of(m@),
            keys == crate::textmap::keys_of(c),
            named_list(r@) == groups::by_name(c).take(i as int),
        decreases n - i,
    {
        let ghost before = named_list(r@);
        let ghost k = keys[i as int];
        r.push((m.key_at(i), m.value_at(i)));
        assert(named_list(r@) =~= before.push((k, c[k])));
        i += 1;
        assert(groups::by_name(c).take(i as int) =~= before.push((k, c[k])));
    }
    assert(groups::by_name(c).take(n as int) =~= groups::by_name(c));
    r
}

/// The groups of files with the same hash, in the order of their sizes.
pub fn list_by_hash<'a>(m: &'a BTreeMap<u64, Vec<Vec<FileEntry>>>) -> (r: Vec<
    (u64, &'a Vec<FileEntry>),
>)
    ensures
        sized_list(r@) == groups::by_hash(grouping::contents(m@)),
        grouping::lists_keys(grouping::keys_of(grouping::contents(m@)), grouping::contents(m@)),
{
    let keys: Vec<u64> = grouping::keys_in_order(m);
    let ghost c = grouping::contents(m@);
    proof {
        assert forall|k: u64| #[trigger] keys@.contains(k) <==> c.contains_key(k) by {
            assert(m@.contains_key(k) == keys@.contains(k));
        }
        grouping::lemma_keys_are(keys@, c);
    }
    let mut r: Vec<(u64, &'a Vec<FileEntry>)> = Vec::new();
    let mut i: usize = 0;
    while i < keys.len()
        invariant
            i <= keys.len(),
            c == grouping::contents(m@),
            grouping::lists_keys(keys@, m@),
            keys@ == grouping::keys_of(c),
            sized_list(r@) == groups::lists_under(keys@.take(i as int), c),
        decreases keys.len() - i,
    {
        let k: u64 = keys[i];
        assert(keys@.contains(k));
        let ghost before = sized_list(r@);
        let ghost tagged = c[k].map_values(|g: Seq<FileView>| (k, g));
        if let Some(lists) = m.get(&k) {
            let mut j: usize = 0;
            assert(tagged.take(0) =~= Seq::empty());
            assert(before + tagged.take(0) =~= before);
            while j < lists.len()
                invariant
                    j <= lists.len(),
                    c == grouping::contents(m@),
                    m@.contains_key(k),
                    *lists == m@[k],
                    tagged == c[k].map_values(|g: Seq<FileView>| (k, g)),
                    sized_list(r@) == before + tagged.take(j as int),
                decreases lists.len() - j,
            {
                let ghost so_far = sized_list(r@);
                r.push((k, &lists[j]));
                assert(sized_list(r@) =~= so_far.push((k, lists@[j as int].deep_view())));
                assert(c[k][j as int] == lists@[j as int].deep_view());
                j += 1;
                assert(so_far.push(tagged[j - 1]) =~= before + tagged.take(j as int));
            }
            assert(tagged.take(lists.len() as int) =~= tagged);
        }
        i += 1;
        proof {
            let taken = keys@.take(i as int);
            assert(taken.drop_last() =~= keys@.take(i - 1));
            assert(taken.last() == k);
            assert(c[k].map_values(|g: Seq<FileView>| (taken.last(), g)) =~= tagged);
        }
    }
    assert(keys@.take(keys@.len() as int) =~= keys@);
    r
}

/// How many files there are beyond the first of each group, if that can be counted.
pub fn count_extra_named(list: &Vec<(&String, &Vec<FileEntry>)>) -> (r: Option<usize>)
    requires
        groups::none_empty(named_list(list@)),
    ensures
        r == (if groups::extra_files(named_list(list@)) <= usize::MAX {
            Some(groups::extra_files(named_list(list@)) as usize)
        } else {
            None
        }),
{
    let ghost all = named_list(list@);
    let mut sum: usize = 0;
    let mut i: usize = 0;
    while i < list.len()
        invariant
            i <= list.len(),
            all == named_list(list@),
            groups::none_empty(all),
            sum == groups::extra_files(all.take(i as int)),
        decreases list.len() - i,
    {
        let n: usize = list[i].1.len();
        proof {
            let taken = all.take(i + 1);
            assert(taken.drop_last() =~= all.take(i as int));
            assert(taken.last() == all[i as int]);
            groups::lemma_extra_files_grow(all, i + 1);
        }
        if n - 1 > usize::MAX - sum {
            return None;
        }
        sum = sum + (n - 1);
        i += 1;
    }
    assert(all.take(list.len() as int) =~= all);
    Some(sum)
}

/// How many files there are beyond the first of each group, and the space that
/// they take, if that can be counted.
pub fn count_extra_sized(list: &Vec<(u64, &Vec<FileEntry>)>) -> (r: Option<(usize, u64)>)
    requires
        groups::none_empty(sized_list(list@)),
    ensures
        r == (if groups::extra_files(sized_list(list@)) <= usize::MAX && groups::lost_space(
            sized_list(list@),
        ) <= u64::MAX {
            Some(
                (
                    groups::extra_files(sized_list(list@)) as usize,
                    groups::lost_space(sized_list(list@)) as u64,
                ),
            )
        } else {
            None
        }),
{
    let ghost all = sized_list(list@);
    let mut sum: usize = 0;
    let mut space: u64 = 0;
    let mut i: usize = 0;
    while i < list.len()
        invariant
            i <= list.len(),
            all == sized_list(list@),
            groups::none_empty(all),
            sum == groups::extra_files(all.take(i as int)),
            space == groups::lost_space(all.take(i as int)),
        decreases list.len() - i,
    {
        let n: usize = list[i].1.len();
        let size: u64 = list[i].0;
        proof {
            let taken = all.take(i + 1);
            assert(taken.drop_last() =~= all.take(i as int));
            assert(taken.last() == all[i as int]);
            groups::lemma_extra_files_grow(all, i + 1);
            groups::lemma_lost_space_grows(all, i + 1);
        }
        if n - 1 > usize::MAX - sum {
            return None;
        }
        let more: u64 = match ((n - 1) as u64).checked_mul(size) {
            Some(more) => more,
            None => {
                return None;
            },
        };
        if more > u64::MAX - space {
            return None;
        }
        sum = sum + (n - 1);
        space = space + more;
        i += 1;
    }
    assert(all.take(list.len() as int) =~= all);
    Some((sum, space))
}

/// The number of files in some groups, if it fits.
pub fn count_named(list: &Vec<(&String, &Vec<FileEntry>)>) -> (r: Option<u64>)
    ensures
        match r {
            Some(n) => n == groups::total_files(named_list(list@)),
            None => groups::total_files(named_list(list@)) > u64::MAX,
        },
{
    let ghost all = named_list(list@);
    let mut n: u64 = 0;
    let mut i: usize = 0;
    assert(all.take(0) =~= Seq::empty());
    while i < list.len()
        invariant
            i <= list.len(),
            all == named_list(list@),
            n == groups::total_files(all.take(i as int)),
        decreases list.len() - i,
    {
        let more: u64 = list[i].1.len() as u64;
        proof {
            groups::lemma_total_files_next(all, i as int);
            assert(all[i as int] == (list@[i as int].0@, list@[i as int].1.deep_view()));
        }
        if n > u64::MAX - more {
            return None;
        }
        n = n + more;
        i += 1;
    }
    assert(all.take(list.len() as int) =~= all);
    Some(n)
}

/// The number of files in some groups, if it fits.
pub fn count_sized(list: &Vec<(u64, &Vec<FileEntry>)>) -> (r: Option<u64>)
    ensures
        match r {
            Some(n) => n == groups::total_files(sized_list(list@)),
            None => groups::total_files(sized_list(list@)) > u64::MAX,
        },
{
    let ghost all = sized_list(list@);
    let mut n: u64 = 0;
    let mut i: usize = 0;
    assert(all.take(0) =~= Seq::empty());
    while i < list.len()
        invariant
            i <= list.len(),
            all == sized_list(list@),
            n == groups::total_files(all.take(i as int)),
        decreases list.len() - i,
    {
        let more: u64 = list[i].1.len() as u64;
        proof {
            groups::lemma_total_files_next(all, i as int);
            assert(all[i as int] == (list@[i as int].0, list@[i as int].1.deep_view()));
        }
        if n > u64::MAX - more {
            return None;
        }
        n = n + more;
        i += 1;
    }
    assert(all.take(list.len() as int) =~= all);
    Some(n)
}

/// What a list of groups is leaves nothing out.
pub proof fn law_lists_are_seen_whole(
    sized: Seq<(u64, &Vec<FileEntry>)>,
    named: Seq<(&String, &Vec<FileEntry>)>,
)
    ensures
        sized_list(sized).len() == sized.len(),
        forall|i: int|
            0 <= i < sized.len() ==> #[trigger] sized_list(sized)[i] == (
                sized[i].0,
                sized[i].1.deep_view(),
            ),
        named_list(named).len() == named.len(),
        forall|i: int|
            0 <= i < named.len() ==> #[trigger] named_list(named)[i] == (
                named[i].0@,
                named[i].1.deep_view(),
            ),
{
}

} // verus!
