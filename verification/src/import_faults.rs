//! How far a file is followed, and what is told where something is wrong with it.

use crate::db::models::ListingView;
use crate::import_json;
use crate::import_json::{
    FileDatesView, ImportErrorView, ImportPlanView, ListingNumbers, RawFileView,
};
use crate::query;
use vstd::prelude::*;

verus! {

// ---------------------------------------------------------------------------
// Chains of duplicates
// ---------------------------------------------------------------------------

/// What the last entry for an id names stands above it, if the list has an
/// entry for that too.
pub open spec fn stands_above(
    links: Seq<(Seq<char>, Option<Seq<char>>)>,
    id: Seq<char>,
    next: Seq<char>,
) -> bool {
    &&& exists|i: int|
        #![trigger links[i]]
        0 <= i < links.len() && links[i] == (id, Some(next)) && forall|k: int|
            i < k < links.len() ==> (#[trigger] links[k]).0 != id
    &&& exists|j: int| 0 <= j < links.len() && (#[trigger] links[j]).0 == next
}

proof fn lemma_link_entry(
    links: Seq<(Seq<char>, Option<Seq<char>>)>,
    id: Seq<char>,
) -> (i: int)
    ensures
        import_json::link_of(links, id) matches Some(v) ==> 0 <= i < links.len() && links[i] == (
            id,
            v,
        ) && forall|k: int| i < k < links.len() ==> (#[trigger] links[k]).0 != id,
        import_json::link_of(links, id) is None ==> forall|k: int|
            0 <= k < links.len() ==> (#[trigger] links[k]).0 != id,
    decreases links.len(),
{
    if links.len() == 0 {
        0
    } else if links.last().0 == id {
        links.len() - 1
    } else {
        let front = links.drop_last();
        let i = lemma_link_entry(front, id);
        assert forall|k: int| 0 <= k < front.len() implies #[trigger] links[k] == front[k] by {}
        i
    }
}

proof fn lemma_above(links: Seq<(Seq<char>, Option<Seq<char>>)>, id: Seq<char>, next: Seq<char>)
    ensures
        import_json::above(links, id) == Some(next) <==> stands_above(links, id, next),
{
    let i = lemma_link_entry(links, id);
    let j = lemma_link_entry(links, next);
    if stands_above(links, id, next) {
        let a = choose|a: int|
            #![trigger links[a]]
            0 <= a < links.len() && links[a] == (id, Some(next)) && forall|k: int|
                a < k < links.len() ==> (#[trigger] links[k]).0 != id;
        assert(links[a].0 == id);
        assert(a == i) by {
            if a < i {
                assert(links[i].0 != id);
            }
        }
        let b = choose|b: int| 0 <= b < links.len() && (#[trigger] links[b]).0 == next;
        assert(links[b].0 == next);
    }
    if import_json::above(links, id) == Some(next) {
        assert(links[i] == (id, Some(next)));
        assert(links[j].0 == next);
    }
}

proof fn lemma_chain(
    links: Seq<(Seq<char>, Option<Seq<char>>)>,
    path: Seq<Seq<char>>,
    hops: nat,
)
    requires
        path.len() > 0,
        forall|k: int|
            #![trigger path[k]]
            0 <= k < path.len() - 1 ==> stands_above(links, path[k], path[k + 1]),
    ensures
        path.len() - 1 <= hops && import_json::above(links, path.last()) is None
            ==> import_json::chain_end(links, path[0], hops) == Some(path.last()),
        path.len() - 1 > hops ==> import_json::chain_end(links, path[0], hops) is None,
    decreases path.len(),
{
    if path.len() > 1 {
        assert(stands_above(links, path[0], path[1]));
        lemma_above(links, path[0], path[1]);
        let rest = path.skip(1);
        assert forall|k: int|
            #![trigger rest[k]]
            0 <= k < rest.len() - 1 implies stands_above(links, rest[k], rest[k + 1]) by {
            assert(rest[k] == path[k + 1] && rest[k + 1] == path[k + 2]);
        }
        assert(rest.last() == path.last());
        if hops > 0 {
            lemma_chain(links, rest, (hops - 1) as nat);
        }
    }
}

/// A chain is followed from one listing to the one above it, up to the first
/// with none above it, which represents them all. It is followed over a
/// thousand links; one that goes on beyond them has no end.
pub proof fn law_chains_are_followed(
    links: Seq<(Seq<char>, Option<Seq<char>>)>,
    path: Seq<Seq<char>>,
)
    requires
        path.len() > 0,
        forall|k: int|
            #![trigger path[k]]
            0 <= k < path.len() - 1 ==> stands_above(links, path[k], path[k + 1]),
    ensures
        path.len() <= 1001 && (forall|next: Seq<char>|
            !#[trigger] stands_above(links, path[path.len() - 1], next)) ==> import_json::resolved(
            links,
            path[0],
        ) == Some(path[path.len() - 1]),
        path.len() > 1001 ==> import_json::resolved(links, path[0]) is None,
{
    lemma_chain(links, path, 1000);
    let last = path.last();
    if import_json::above(links, last) is Some {
        lemma_above(links, last, import_json::above(links, last)->0);
    }
}

// ---------------------------------------------------------------------------
// What is wrong with a file
// ---------------------------------------------------------------------------

proof fn lemma_parameters()
    ensures
        "section"@ == seq!['s', 'e', 'c', 't', 'i', 'o', 'n'],
        "shape"@ == seq!['s', 'h', 'a', 'p', 'e'],
        "price"@ == seq!['p', 'r', 'i', 'c', 'e'],
{
    reveal_strlit("section");
    reveal_strlit("shape");
    reveal_strlit("price");
    assert("section"@ =~= seq!['s', 'e', 'c', 't', 'i', 'o', 'n']);
    assert("shape"@ =~= seq!['s', 'h', 'a', 'p', 'e']);
    assert("price"@ =~= seq!['p', 'r', 'i', 'c', 'e']);
}

/// What an address is missing is told in this order: section, shape, price; and
/// then whether the section and the shape are known.
pub proof fn law_first_fault_of_an_address_is_told(url: Seq<char>)
    ensures
        ({
            let told = import_json::search_parts(url);
            let section = query::param(url, seq!['s', 'e', 'c', 't', 'i', 'o', 'n']);
            let shape = query::param(url, seq!['s', 'h', 'a', 'p', 'e']);
            let price = query::param(url, seq!['p', 'r', 'i', 'c', 'e']);
            if section is None {
                told == Err::<(Seq<char>, Seq<char>, Seq<char>), ImportErrorView>(
                    ImportErrorView::MissingParameter {
                        name: seq!['s', 'e', 'c', 't', 'i', 'o', 'n'],
                    },
                )
            } else if shape is None {
                told == Err::<(Seq<char>, Seq<char>, Seq<char>), ImportErrorView>(
                    ImportErrorView::MissingParameter { name: seq!['s', 'h', 'a', 'p', 'e'] },
                )
            } else if price is None {
                told == Err::<(Seq<char>, Seq<char>, Seq<char>), ImportErrorView>(
                    ImportErrorView::MissingParameter { name: seq!['p', 'r', 'i', 'c', 'e'] },
                )
            } else if query::district_of(section->0) is None {
                told == Err::<(Seq<char>, Seq<char>, Seq<char>), ImportErrorView>(
                    ImportErrorView::UnknownSection { section: section->0 },
                )
            } else if query::building_type_of(shape->0) is None {
                told == Err::<(Seq<char>, Seq<char>, Seq<char>), ImportErrorView>(
                    ImportErrorView::UnknownShape { shape: shape->0 },
                )
            } else {
                &&& told matches Ok(parts)
                &&& query::district_of(section->0) == Some(parts.0)
                &&& query::building_type_of(shape->0) == Some(parts.1)
                &&& price == Some(parts.2)
            }
        }),
{
    lemma_parameters();
}

proof fn lemma_runs_until(file: RawFileView, dates: FileDatesView, h: int, n: int)
    requires
        0 <= n <= file.history.len(),
        0 <= h <= file.history.len(),
        forall|k: int| 0 <= k < h ==> (#[trigger] dates.history[k]) is Some,
        h < file.history.len() ==> dates.history[h] is None,
    ensures
        n <= h ==> import_json::runs_upto(file, dates, n) is Ok,
        n > h ==> (import_json::runs_upto(file, dates, n) matches Err(e) && e == (
        ImportErrorView::BadDate {
            field: "history.date"@,
            text: file.history[h].date,
            owner: file.search_url,
        })),
    decreases n,
{
    if n > 0 {
        lemma_runs_until(file, dates, h, n - 1);
        if n <= h {
            assert(dates.history[n - 1] is Some);
        }
    }
}

/// The listing has all that is needed to take it in.
spec fn is_whole(
    file: RawFileView,
    numbers: Seq<ListingNumbers>,
    dates: FileDatesView,
    i: int,
) -> bool {
    &&& numbers[i].area is Some
    &&& file.listings[i].main_area is Some ==> numbers[i].main_area is Some
    &&& dates.first_seen[i] is Some
    &&& file.listings[i].delisted_date is Some ==> dates.delisted[i] is Some
}

proof fn lemma_listings_until(
    file: RawFileView,
    numbers: Seq<ListingNumbers>,
    dates: FileDatesView,
    j: int,
    n: int,
)
    requires
        0 <= n <= file.listings.len(),
        0 <= j <= file.listings.len(),
        forall|i: int|
            0 <= i < j ==> is_whole(file, numbers, dates, i) && import_json::resolved(
                import_json::links_of(file),
                (#[trigger] file.listings[i]).id,
            ) is Some,
        j < file.listings.len() ==> !is_whole(file, numbers, dates, j),
    ensures
        n <= j ==> (import_json::listings_upto(file, numbers, dates, n) matches Some(Ok(_))),
        n > j ==> {
            &&& import_json::planned_listing(file, numbers, dates, j) matches Some(Err(e))
            &&& import_json::listings_upto(file, numbers, dates, n) == Some(
                Err::<Seq<ListingView>, ImportErrorView>(e),
            )
        },
    decreases n,
{
    if n > 0 {
        lemma_listings_until(file, numbers, dates, j, n - 1);
        if n <= j {
            assert(file.listings[n - 1] == file.listings[n - 1]);
            assert(import_json::planned_listing(file, numbers, dates, n - 1) matches Some(Ok(_)));
        }
    }
}

/// What is wrong with a file is told of the first thing that is: its address,
/// the day it was last checked, the first round `h` without a day, then the
/// first listing `j` that lacks something. Of a listing the area comes first, then
/// the main area, the day it was first seen, and the day it went off the
/// market.
pub proof fn law_first_fault_of_a_file_is_told(
    file: RawFileView,
    numbers: Seq<ListingNumbers>,
    dates: FileDatesView,
    h: int,
    j: int,
)
    requires
        0 <= h <= file.history.len(),
        forall|k: int| 0 <= k < h ==> (#[trigger] dates.history[k]) is Some,
        h < file.history.len() ==> dates.history[h] is None,
        0 <= j <= file.listings.len(),
        forall|i: int|
            #![trigger file.listings[i]]
            0 <= i < j ==> {
                &&& numbers[i].area is Some
                &&& file.listings[i].main_area is Some ==> numbers[i].main_area is Some
                &&& dates.first_seen[i] is Some
                &&& file.listings[i].delisted_date is Some ==> dates.delisted[i] is Some
                &&& import_json::resolved(
                    import_json::links_of(file),
                    file.listings[i].id,
                ) is Some
            },
        j < file.listings.len() ==> {
            ||| numbers[j].area is None
            ||| file.listings[j].main_area is Some && numbers[j].main_area is None
            ||| dates.first_seen[j] is None
            ||| file.listings[j].delisted_date is Some && dates.delisted[j] is None
        },
    ensures
        ({
            let told = import_json::planned(file, numbers, dates);
            let l = file.listings[j];
            let fault = |e: ImportErrorView|
                told == Some(Err::<ImportPlanView, ImportErrorView>(e));
            match import_json::search_parts(file.search_url) {
                Err(e) => fault(e),
                Ok(_) => if file.last_checked is Some && dates.last_checked is None {
                    fault(
                        ImportErrorView::BadDate {
                            field: "lastChecked"@,
                            text: file.last_checked->0,
                            owner: file.search_url,
                        },
                    )
                } else if h < file.history.len() {
                    fault(
                        ImportErrorView::BadDate {
                            field: "history.date"@,
                            text: file.history[h].date,
                            owner: file.search_url,
                        },
                    )
                } else if j == file.listings.len() {
                    told matches Some(Ok(_))
                } else if numbers[j].area is None {
                    fault(ImportErrorView::BadArea { id: l.id, area: l.area })
                } else if l.main_area is Some && numbers[j].main_area is None {
                    fault(ImportErrorView::BadMainArea { id: l.id })
                } else if dates.first_seen[j] is None {
                    fault(
                        ImportErrorView::BadDate {
                            field: "firstSeen"@,
                            text: l.first_seen,
                            owner: l.id,
                        },
                    )
                } else {
                    fault(
                        ImportErrorView::BadDate {
                            field: "delistedDate"@,
                            text: l.delisted_date->0,
                            owner: l.id,
                        },
                    )
                },
            }
        }),
{
    lemma_runs_until(file, dates, h, file.history.len() as int);
    assert forall|i: int| 0 <= i < j implies is_whole(file, numbers, dates, i)
        && import_json::resolved(
        import_json::links_of(file),
        (#[trigger] file.listings[i]).id,
    ) is Some by {}
    lemma_listings_until(file, numbers, dates, j, file.listings.len() as int);
}

} // verus!
