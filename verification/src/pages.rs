//! Page lists. A page list holds the ids of a document's pages in page
//! order: page number `k`, counted from 1, stands at index `k - 1`.

use vstd::prelude::*;
use crate::model::ObjectId;

verus! {

/// Whether `number` occurs in `numbers`.
pub open spec fn is_listed(numbers: Seq<u32>, number: int) -> bool {
    exists|j: int| 0 <= j < numbers.len() && #[trigger] numbers[j] == number
}

/// The pages whose numbers do not occur in `deleted`, in their old order.
pub open spec fn kept_pages(pages: Seq<ObjectId>, deleted: Seq<u32>) -> Seq<ObjectId>
    decreases pages.len(),
{
    if pages.len() == 0 {
        Seq::empty()
    } else if is_listed(deleted, pages.len() as int) {
        kept_pages(pages.drop_last(), deleted)
    } else {
        kept_pages(pages.drop_last(), deleted).push(pages.last())
    }
}

/// The pages that `order` names, one for each number of `order` that is a
/// page number of the list, in the order of `order`.
pub open spec fn reordered_pages(pages: Seq<ObjectId>, order: Seq<u32>) -> Seq<ObjectId>
    decreases order.len(),
{
    if order.len() == 0 {
        Seq::empty()
    } else if 1 <= order.last() <= pages.len() {
        reordered_pages(pages, order.drop_last()).push(pages[order.last() - 1])
    } else {
        reordered_pages(pages, order.drop_last())
    }
}

/// The index at which pages inserted after page `after_page` start in a
/// list of `count` pages: behind the last page when there is no such page.
pub open spec fn insert_position(after_page: int, count: int) -> int {
    if after_page > count {
        count
    } else {
        after_page
    }
}

/// The list `base` with the list `insertion` put in after page
/// `after_page`.
pub open spec fn spliced_pages(base: Seq<ObjectId>, insertion: Seq<ObjectId>, after_page: u32) -> Seq<
    ObjectId,
> {
    let position = insert_position(after_page as int, base.len() as int);
    base.take(position) + insertion + base.skip(position)
}

/// Whether `number` occurs in `numbers`.
pub fn lists(numbers: &Vec<u32>, number: usize) -> (found: bool)
    ensures
        found == is_listed(numbers@, number as int),
{
    let mut j: usize = 0;
    while j < numbers.len()
        invariant
            j <= numbers.len(),
            forall|k: int| 0 <= k < j ==> numbers@[k] != number,
        decreases numbers.len() - j,
    {
        if numbers[j] as usize == number {
            return true;
        }
        j = j + 1;
    }
    false
}

/// Leaves out the pages whose numbers occur in `deleted`.
pub fn keep_pages(pages: &Vec<ObjectId>, deleted: &Vec<u32>) -> (kept: Vec<ObjectId>)
    ensures
        kept@ == kept_pages(pages@, deleted@),
{
    let mut kept: Vec<ObjectId> = Vec::new();
    let mut i: usize = 0;
    while i < pages.len()
        invariant
            i <= pages.len(),
            kept@ == kept_pages(pages@.take(i as int), deleted@),
        decreases pages.len() - i,
    {
        assert(pages@.take(i + 1).drop_last() =~= pages@.take(i as int));
        if !lists(deleted, i + 1) {
            kept.push(pages[i]);
        }
        i = i + 1;
    }
    assert(pages@.take(i as int) =~= pages@);
    kept
}

/// Lists the pages in the order that `order` gives by page number; a number
/// that is no page number of the list is passed over.
pub fn reorder(pages: &Vec<ObjectId>, order: &Vec<u32>) -> (listed: Vec<ObjectId>)
    ensures
        listed@ == reordered_pages(pages@, order@),
{
    let mut listed: Vec<ObjectId> = Vec::new();
    let mut j: usize = 0;
    while j < order.len()
        invariant
            j <= order.len(),
            listed@ == reordered_pages(pages@, order@.take(j as int)),
        decreases order.len() - j,
    {
        assert(order@.take(j + 1).drop_last() =~= order@.take(j as int));
        let number: usize = order[j] as usize;
        if 1 <= number && number <= pages.len() {
            listed.push(pages[number - 1]);
        }
        j = j + 1;
    }
    assert(order@.take(j as int) =~= order@);
    listed
}

/// Puts the pages of `insertion` into `base` after page `after_page`: in
/// front of all pages for 0, behind all pages for a number above the page
/// count.
pub fn splice_pages(base: &Vec<ObjectId>, insertion: &Vec<ObjectId>, after_page: u32) -> (spliced:
    Vec<ObjectId>)
    ensures
        spliced@ == spliced_pages(base@, insertion@, after_page),
{
    let position: usize = if after_page as usize > base.len() {
        base.len()
    } else {
        after_page as usize
    };
    let mut spliced: Vec<ObjectId> = Vec::new();
    let mut i: usize = 0;
    while i < position
        invariant
            i <= position <= base.len(),
            spliced@ == base@.take(i as int),
        decreases position - i,
    {
        spliced.push(base[i]);
        i = i + 1;
        assert(spliced@ =~= base@.take(i as int));
    }
    let mut j: usize = 0;
    while j < insertion.len()
        invariant
            j <= insertion.len(),
            spliced@ == base@.take(position as int) + insertion@.take(j as int),
        decreases insertion.len() - j,
    {
        spliced.push(insertion[j]);
        j = j + 1;
        assert(spliced@ =~= base@.take(position as int) + insertion@.take(j as int));
    }
    assert(insertion@.take(j as int) =~= insertion@);
    let mut k: usize = position;
    while k < base.len()
        invariant
            position <= k <= base.len(),
            spliced@ == base@.take(position as int) + insertion@ + base@.subrange(
                position as int,
                k as int,
            ),
        decreases base.len() - k,
    {
        spliced.push(base[k]);
        k = k + 1;
        assert(spliced@ =~= base@.take(position as int) + insertion@ + base@.subrange(
            position as int,
            k as int,
        ));
    }
    assert(base@.subrange(position as int, k as int) =~= base@.skip(position as int));
    spliced
}

/// The pages of `list` from index `start` on.
pub fn pages_from(list: &Vec<ObjectId>, start: usize) -> (rest: Vec<ObjectId>)
    requires
        start <= list.len(),
    ensures
        rest@ == list@.skip(start as int),
{
    let mut rest: Vec<ObjectId> = Vec::new();
    let mut i: usize = start;
    while i < list.len()
        invariant
            start <= i <= list.len(),
            rest@ == list@.subrange(start as int, i as int),
        decreases list.len() - i,
    {
        rest.push(list[i]);
        i = i + 1;
        assert(rest@ =~= list@.subrange(start as int, i as int));
    }
    assert(list@.subrange(start as int, i as int) =~= list@.skip(start as int));
    rest
}

/// Where none of the page numbers is listed, every page is kept.
pub proof fn lemma_keep_all(pages: Seq<ObjectId>, deleted: Seq<u32>)
    requires
        forall|n: int| 1 <= n <= pages.len() ==> !is_listed(deleted, n),
    ensures
        kept_pages(pages, deleted) == pages,
    decreases pages.len(),
{
    if pages.len() > 0 {
        lemma_keep_all(pages.drop_last(), deleted);
        assert(!is_listed(deleted, pages.len() as int));
        assert(pages.drop_last().push(pages.last()) =~= pages);
    }
}

/// Deleting the single page `k` of a list of `N` pages leaves `N - 1`
/// pages: those before page `k` and those behind it, in their old order.
pub proof fn law_delete_one_page(pages: Seq<ObjectId>, k: u32)
    requires
        1 <= k <= pages.len(),
    ensures
        kept_pages(pages, seq![k]) == pages.remove(k - 1),
        kept_pages(pages, seq![k]).len() == pages.len() - 1,
        forall|i: int| 0 <= i < k - 1 ==> kept_pages(pages, seq![k])[i] == pages[i],
        forall|i: int| k - 1 <= i < pages.len() - 1 ==> kept_pages(pages, seq![k])[i] == pages[i + 1],
    decreases pages.len(),
{
    let deleted = seq![k];
    assert(deleted[0] == k);
    assert(forall|n: int| is_listed(deleted, n) <==> n == k);
    if pages.len() == k {
        lemma_keep_all(pages.drop_last(), deleted);
        assert(pages.drop_last() =~= pages.remove(k - 1));
    } else {
        law_delete_one_page(pages.drop_last(), k);
        assert(pages.drop_last().remove(k - 1).push(pages.last()) =~= pages.remove(k - 1));
    }
}

/// Deleting every page leaves none.
pub proof fn law_delete_all_pages(pages: Seq<ObjectId>, deleted: Seq<u32>)
    requires
        forall|n: int| 1 <= n <= pages.len() ==> is_listed(deleted, n),
    ensures
        kept_pages(pages, deleted).len() == 0,
    decreases pages.len(),
{
    if pages.len() > 0 {
        assert(is_listed(deleted, pages.len() as int));
        law_delete_all_pages(pages.drop_last(), deleted);
    }
}

/// Where every number of `order` is a page number, the new list has one
/// page for each of them: page `i + 1` of the new list is the page that
/// `order[i]` names.
pub proof fn law_reorder_by_page_numbers(pages: Seq<ObjectId>, order: Seq<u32>)
    requires
        forall|i: int| 0 <= i < order.len() ==> 1 <= #[trigger] order[i] <= pages.len(),
    ensures
        reordered_pages(pages, order).len() == order.len(),
        forall|i: int|
            0 <= i < order.len() ==> #[trigger] reordered_pages(pages, order)[i] == pages[order[i]
                - 1],
    decreases order.len(),
{
    if order.len() > 0 {
        law_reorder_by_page_numbers(pages, order.drop_last());
        assert(1 <= order[order.len() - 1] <= pages.len());
    }
}

/// Inserting `M` pages after page `k` of `N` pages, `0 <= k <= N`, gives
/// `N + M` pages: the first `k` pages of the base, then the inserted pages
/// in their order, then the rest of the base.
pub proof fn law_insert_after_page(base: Seq<ObjectId>, insertion: Seq<ObjectId>, k: u32)
    requires
        0 <= k <= base.len(),
    ensures
        spliced_pages(base, insertion, k).len() == base.len() + insertion.len(),
        forall|i: int| 0 <= i < k ==> spliced_pages(base, insertion, k)[i] == base[i],
        forall|i: int|
            k <= i < k + insertion.len() ==> spliced_pages(base, insertion, k)[i] == insertion[i
                - k],
        forall|i: int|
            k + insertion.len() <= i < base.len() + insertion.len() ==> spliced_pages(
                base,
                insertion,
                k,
            )[i] == base[i - insertion.len()],
{
}

/// Inserting after a page number above the page count appends; inserting
/// after page 0 prepends.
pub proof fn law_insert_at_the_ends(base: Seq<ObjectId>, insertion: Seq<ObjectId>, after_page: u32)
    ensures
        after_page > base.len() ==> spliced_pages(base, insertion, after_page) == base + insertion,
        spliced_pages(base, insertion, 0) == insertion + base,
{
    assert(base.take(base.len() as int) =~= base);
    assert(base + insertion + base.skip(base.len() as int) =~= base + insertion);
    assert(base.take(0) + insertion + base.skip(0) =~= insertion + base);
}

} // verus!
