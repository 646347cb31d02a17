//! Stable sorts of version lists, specified by `order::stable_sort`.
use vstd::prelude::*;
use crate::models::{AvailableVersionGroup, GroupView};
use crate::order::{
    dotted_order, insert_sorted, lemma_insert_at, order_dotted, order_versions, stable_sort,
    version_order, Order,
};
use crate::text::{chars_of, strs_of, text_less, text_less_of};

verus! {

/// `a` is a strictly newer version than `b`.
pub open spec fn newer(a: Seq<char>, b: Seq<char>) -> bool {
    version_order(b, a) == Order::Less
}

/// "Strictly newer" as a relation, newest first.
pub open spec fn newer_first() -> spec_fn(Seq<char>, Seq<char>) -> bool {
    |a: Seq<char>, b: Seq<char>| newer(a, b)
}

/// The major version of `a` is strictly newer than that of `b`.
pub open spec fn group_newer_first() -> spec_fn(GroupView, GroupView) -> bool {
    |a: GroupView, b: GroupView| newer(a.major, b.major)
}

/// Dotted fields strictly smaller, oldest first.
pub open spec fn dotted_older_first() -> spec_fn(Seq<char>, Seq<char>) -> bool {
    |a: Seq<char>, b: Seq<char>| dotted_order(a, b) == Order::Less
}

/// Dotted fields strictly larger, newest first.
pub open spec fn dotted_newer_first() -> spec_fn(Seq<char>, Seq<char>) -> bool {
    |a: Seq<char>, b: Seq<char>| dotted_order(b, a) == Order::Less
}

/// Strictly smaller in the order of characters (`str` order).
pub open spec fn text_order() -> spec_fn(Seq<char>, Seq<char>) -> bool {
    |a: Seq<char>, b: Seq<char>| text_less(a, b)
}

/// Whether `a` is a strictly newer version than `b`.
pub fn is_newer(a: &String, b: &String) -> (r: bool)
    ensures
        r == newer(a@, b@),
{
    let ca = chars_of(a.as_str());
    let cb = chars_of(b.as_str());
    order_versions(cb.as_slice(), ca.as_slice()) == Order::Less
}

/// The ways a list of version strings can be sorted.
#[derive(PartialEq, Eq, Structural, Clone, Copy)]
pub enum VersionSort {
    /// By numbers, newest first.
    NewestFirst,
    /// By dotted fields, oldest first.
    DottedOldestFirst,
    /// By dotted fields, newest first.
    DottedNewestFirst,
    /// As text (`str` order).
    Text,
}

/// The relation a sort orders by.
pub open spec fn relation_of(how: VersionSort) -> spec_fn(Seq<char>, Seq<char>) -> bool {
    match how {
        VersionSort::NewestFirst => newer_first(),
        VersionSort::DottedOldestFirst => dotted_older_first(),
        VersionSort::DottedNewestFirst => dotted_newer_first(),
        VersionSort::Text => text_order(),
    }
}

/// Whether `a` comes strictly before `b` in the sort `how`.
fn precedes(how: VersionSort, a: &String, b: &String) -> (r: bool)
    ensures
        r == (relation_of(how))(a@, b@),
{
    let ca = chars_of(a.as_str());
    let cb = chars_of(b.as_str());
    match how {
        VersionSort::NewestFirst => order_versions(cb.as_slice(), ca.as_slice()) == Order::Less,
        VersionSort::DottedOldestFirst => order_dotted(ca.as_slice(), cb.as_slice()) == Order::Less,
        VersionSort::DottedNewestFirst => order_dotted(cb.as_slice(), ca.as_slice()) == Order::Less,
        VersionSort::Text => text_less_of(&ca, &cb),
    }
}

/// `v` sorted stably by the relation of `how`.
pub fn sort_versions(v: &Vec<String>, how: VersionSort) -> (r: Vec<String>)
    ensures
        strs_of(r@) == stable_sort(strs_of(v@), relation_of(how)),
{
    let ghost rel = relation_of(how);
    let ghost s = strs_of(v@);
    let mut r: Vec<String> = Vec::new();
    let mut i: usize = 0;
    assert(s.take(0) =~= Seq::<Seq<char>>::empty());
    while i < v.len()
        invariant
            i <= v@.len(),
            s == strs_of(v@),
            rel == relation_of(how),
            strs_of(r@) == stable_sort(s.take(i as int), rel),
        decreases v@.len() - i,
    {
        let e = v[i].clone();
        let mut p: usize = r.len();
        while p > 0 && precedes(how, &e, &r[p - 1])
            invariant
                p <= r@.len(),
                rel == relation_of(how),
                forall|j: int| p <= j < r@.len() ==> (rel)(e@, #[trigger] r@[j]@),
            decreases p,
        {
            p = p - 1;
        }
        let ghost before = r@;
        proof {
            let sr = strs_of(before);
            assert forall|j: int| p <= j < sr.len() implies (rel)(e@, #[trigger] sr[j]) by {
                assert(sr[j] == before[j]@);
            }
            if p > 0 {
                assert(sr[p - 1] == before[p - 1]@);
            }
            lemma_insert_at(sr, e@, rel, p as int);
            let t = s.take(i + 1);
            assert(t.drop_last() =~= s.take(i as int));
            assert(t.last() == e@);
        }
        r.insert(p, e);
        proof {
            let sr = strs_of(before);
            assert(strs_of(r@) =~= sr.take(p as int).push(e@) + sr.skip(p as int));
        }
        i = i + 1;
    }
    assert(s.take(v@.len() as int) =~= s);
    r
}

/// The views of a list of groups.
pub open spec fn group_views(gs: Seq<AvailableVersionGroup>) -> Seq<GroupView> {
    Seq::new(gs.len(), |i: int| gs[i]@)
}

/// `gs` sorted stably by major version, newest first.
pub fn sort_groups(gs: Vec<AvailableVersionGroup>) -> (r: Vec<AvailableVersionGroup>)
    ensures
        group_views(r@) == stable_sort(group_views(gs@), group_newer_first()),
{
    let ghost rel = group_newer_first();
    let ghost s = group_views(gs@);
    let mut src = gs;
    let mut r: Vec<AvailableVersionGroup> = Vec::new();
    let mut i: usize = 0;
    assert(s.take(0) =~= Seq::<GroupView>::empty());
    let n = src.len();
    // The groups are taken from the back of a reversed copy, so that each is
    // moved once and inserted in input order.
    let mut rev: Vec<AvailableVersionGroup> = Vec::new();
    while src.len() > 0
        invariant
            s == group_views(gs@),
            n == gs@.len(),
            src@.len() + rev@.len() == n,
            forall|j: int| 0 <= j < src@.len() ==> #[trigger] src@[j]@ == s[j],
            forall|j: int| 0 <= j < rev@.len() ==> #[trigger] rev@[j]@ == s[n - 1 - j],
        decreases src@.len(),
    {
        let g = src.pop().unwrap();
        rev.push(g);
    }
    while i < n
        invariant
            s == group_views(gs@),
            n == gs@.len(),
            i <= n,
            rev@.len() == n - i,
            forall|j: int| 0 <= j < rev@.len() ==> #[trigger] rev@[j]@ == s[n - 1 - j],
            rel == group_newer_first(),
            group_views(r@) == stable_sort(s.take(i as int), rel),
        decreases n - i,
    {
        let e = rev.pop().unwrap();
        assert(e@ == s[i as int]);
        let mut p: usize = r.len();
        while p > 0 && is_newer(&e.major, &r[p - 1].major)
            invariant
                p <= r@.len(),
                rel == group_newer_first(),
                forall|j: int| p <= j < r@.len() ==> (rel)(e@, #[trigger] r@[j]@),
            decreases p,
        {
            p = p - 1;
        }
        let ghost before = r@;
        proof {
            let sr = group_views(before);
            assert forall|j: int| p <= j < sr.len() implies (rel)(e@, #[trigger] sr[j]) by {
                assert(sr[j] == before[j]@);
            }
            if p > 0 {
                assert(sr[p - 1] == before[p - 1]@);
            }
            lemma_insert_at(sr, e@, rel, p as int);
            let t = s.take(i + 1);
            assert(t.drop_last() =~= s.take(i as int));
            assert(t.last() == e@);
        }
        r.insert(p, e);
        proof {
            let sr = group_views(before);
            assert(group_views(r@) =~= sr.take(p as int).push(e@) + sr.skip(p as int));
        }
        i = i + 1;
    }
    assert(s.take(n as int) =~= s);
    r
}

} // verus!
