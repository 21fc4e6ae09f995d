use vstd::prelude::*;

use crate::spiders::Spider;

verus! {

/// The dedup law: in any well-formed engine state the fetch log never names
/// a URL twice — each distinct URL is handed to the fetch capability at most
/// once, however many concurrent fetches discovered it — and never names a
/// URL that was not admitted.
pub proof fn lemma_fetch_at_most_once<T>(st: EngineState<T>)
    requires
        st.wf(),
    ensures
        st.fetched@.no_duplicates(),
        forall|u: Seq<char>|
            #[trigger] st.fetched@.contains(u) ==> st.visited.deep_view().contains(u),
{
}

/// The draining law: once the item queue of a well-formed state is empty,
/// every item that ever entered it has been handed to the sink, in order.
pub proof fn lemma_drained<T>(st: EngineState<T>)
    requires
        st.wf(),
        st.items@.len() == 0,
    ensures
        st.processed@ == st.enqueued@,
{
    assert(st.items@ =~= Seq::<T>::empty());
    assert(st.enqueued@ =~= st.processed@);
}

/// How many entries of `outs` name a URL that is not yet visited, counted
/// with multiplicity. The termination measure of a crawl: admitting a fresh
/// URL that some fetch can discover strictly shrinks it, and nothing ever
/// grows it.
pub open spec fn count_unvisited(outs: Seq<Seq<char>>, visited: Seq<Seq<char>>) -> nat
    decreases outs.len(),
{
    if outs.len() == 0 {
        0
    } else {
        (if visited.contains(outs[0]) {
            0nat
        } else {
            1nat
        }) + count_unvisited(outs.drop_first(), visited)
    }
}

/// Visiting more URLs never raises the count of unvisited ones.
pub proof fn lemma_count_mono(outs: Seq<Seq<char>>, v1: Seq<Seq<char>>, v2: Seq<Seq<char>>)
    requires
        forall|u: Seq<char>| #[trigger] v1.contains(u) ==> v2.contains(u),
    ensures
        count_unvisited(outs, v2) <= count_unvisited(outs, v1),
    decreases outs.len(),
{
    if outs.len() > 0 {
        lemma_count_mono(outs.drop_first(), v1, v2);
    }
}

/// Visiting a URL that `outs` holds and that was unvisited strictly lowers
/// the count of unvisited entries.
pub proof fn lemma_count_strict(
    outs: Seq<Seq<char>>,
    v1: Seq<Seq<char>>,
    v2: Seq<Seq<char>>,
    w: Seq<char>,
)
    requires
        forall|u: Seq<char>| #[trigger] v1.contains(u) ==> v2.contains(u),
        outs.contains(w),
        !v1.contains(w),
        v2.contains(w),
    ensures
        count_unvisited(outs, v2) < count_unvisited(outs, v1),
    decreases outs.len(),
{
    lemma_head_contains(outs);
    if outs[0] == w {
        lemma_count_mono(outs.drop_first(), v1, v2);
    } else {
        lemma_count_strict(outs.drop_first(), v1, v2, w);
    }
}

/// The items that fetching the given URLs in order sends into the item
/// queue: each successful fetch contributes its items in order, a failed
/// fetch contributes nothing.
pub open spec fn scrape_items<S: Spider>(spider: S, urls: Seq<Seq<char>>) -> Seq<S::Item>
    decreases urls.len(),
{
    if urls.len() == 0 {
        Seq::empty()
    } else {
        (match spider.spec_scrape(urls[0]) {
            Some(out) => out.0,
            None => Seq::empty(),
        }) + scrape_items(spider, urls.drop_first())
    }
}

/// Whether fetching `from` succeeds and discovers `to`.
pub open spec fn scrape_discovers<S: Spider>(spider: S, from: Seq<char>, to: Seq<char>) -> bool {
    match spider.spec_scrape(from) {
        Some(out) => out.1.contains(to),
        None => false,
    }
}

/// Whether some URL of the fetch log discovers `u`.
pub open spec fn discovered_by<S: Spider>(
    spider: S,
    fetched: Seq<Seq<char>>,
    u: Seq<char>,
) -> bool {
    exists|j: int| 0 <= j < fetched.len() && scrape_discovers(spider, #[trigger] fetched[j], u)
}

/// Fetch soundness: every URL of the fetch log is a seed, or was discovered
/// by a strictly earlier fetch. Nothing is ever fetched out of thin air, and
/// with no seeds nothing is fetched at all.
pub open spec fn provenanced<S: Spider>(
    spider: S,
    seeds: Seq<Seq<char>>,
    fetched: Seq<Seq<char>>,
) -> bool {
    forall|i: int|
        0 <= i < fetched.len() ==> seeds.contains(#[trigger] fetched[i]) || exists|j: int|
            0 <= j < i && scrape_discovers(spider, #[trigger] fetched[j], fetched[i])
}

/// Provenance is kept when a URL that is a seed, or that an already-fetched
/// URL discovered, is appended to the fetch log.
pub proof fn lemma_provenance_push<S: Spider>(
    spider: S,
    seeds: Seq<Seq<char>>,
    fetched: Seq<Seq<char>>,
    u: Seq<char>,
)
    requires
        provenanced(spider, seeds, fetched),
        seeds.contains(u) || discovered_by(spider, fetched, u),
    ensures
        provenanced(spider, seeds, fetched.push(u)),
{
    let f2 = fetched.push(u);
    assert forall|i: int| 0 <= i < f2.len() implies seeds.contains(#[trigger] f2[i]) || exists|
        j: int,
    |
        0 <= j < i && scrape_discovers(spider, #[trigger] f2[j], f2[i]) by {
        if i < fetched.len() {
            assert(f2[i] == fetched[i]);
            if !seeds.contains(fetched[i]) {
                let j = choose|j: int|
                    0 <= j < i && scrape_discovers(spider, #[trigger] fetched[j], fetched[i]);
                assert(f2[j] == fetched[j]);
                assert(scrape_discovers(spider, f2[j], f2[i]));
            }
        } else {
            assert(f2[i] == u);
            if !seeds.contains(u) {
                let j = choose|j: int|
                    0 <= j < fetched.len() && scrape_discovers(spider, #[trigger] fetched[j], u);
                assert(f2[j] == fetched[j]);
                assert(scrape_discovers(spider, f2[j], f2[i]));
            }
        }
    }
}

/// What one completed fetch forwards to the queues: its items in order and
/// its discovered URLs as one batch on success; no items and the empty
/// completion batch on failure.
pub fn fetch_outputs<T>(outcome: Result<(Vec<T>, Vec<String>), crate::error::Error>) -> (r: (
    Vec<T>,
    Vec<String>,
))
    ensures
        match outcome {
            Ok(out) => r == out,
            Err(_) => r.0@ == Seq::<T>::empty() && r.1@ == Seq::<String>::empty(),
        },
{
    match outcome {
        Ok(out) => out,
        Err(_) => (Vec::new(), Vec::new()),
    }
}

/// Fetching one more URL appends exactly that fetch's items.
pub proof fn lemma_scrape_items_push<S: Spider>(spider: S, urls: Seq<Seq<char>>, url: Seq<char>)
    ensures
        scrape_items(spider, urls.push(url)) == scrape_items(spider, urls) + (
        match spider.spec_scrape(url) {
            Some(out) => out.0,
            None => Seq::empty(),
        }),
    decreases urls.len(),
{
    let tail = match spider.spec_scrape(url) {
        Some(out) => out.0,
        None => Seq::<S::Item>::empty(),
    };
    if urls.len() == 0 {
        assert(urls.push(url)[0] == url);
        assert(urls.push(url).drop_first() =~= Seq::<Seq<char>>::empty());
        assert(scrape_items(spider, Seq::<Seq<char>>::empty()) == Seq::<S::Item>::empty());
        assert(scrape_items(spider, urls.push(url)) == tail + Seq::<S::Item>::empty());
        assert(scrape_items(spider, urls) == Seq::<S::Item>::empty());
        assert(tail + Seq::<S::Item>::empty() =~= Seq::<S::Item>::empty() + tail);
    } else {
        let head = match spider.spec_scrape(urls[0]) {
            Some(out) => out.0,
            None => Seq::<S::Item>::empty(),
        };
        assert(urls.push(url)[0] == urls[0]);
        assert(urls.push(url).drop_first() =~= urls.drop_first().push(url));
        lemma_scrape_items_push(spider, urls.drop_first(), url);
        assert(scrape_items(spider, urls.push(url)) == head + scrape_items(
            spider,
            urls.drop_first().push(url),
        ));
        assert(scrape_items(spider, urls) == head + scrape_items(spider, urls.drop_first()));
        assert(head + (scrape_items(spider, urls.drop_first()) + tail) =~= (head + scrape_items(
            spider,
            urls.drop_first(),
        )) + tail);
    }
}

/// A sequence stays duplicate-free when an element it does not yet hold is
/// appended.
pub proof fn lemma_push_no_dup<A>(s: Seq<A>, x: A)
    requires
        s.no_duplicates(),
        !s.contains(x),
    ensures
        s.push(x).no_duplicates(),
        forall|y: A| #[trigger] s.push(x).contains(y) <==> (s.contains(y) || y == x),
{
    assert forall|y: A| #[trigger] s.push(x).contains(y) implies (s.contains(y) || y == x) by {
        let i = choose|i: int| 0 <= i < s.push(x).len() && s.push(x)[i] == y;
        if i < s.len() {
            assert(s[i] == y);
        }
    }
    assert forall|y: A| s.contains(y) || y == x implies #[trigger] s.push(x).contains(y) by {
        if s.contains(y) {
            let i = choose|i: int| 0 <= i < s.len() && s[i] == y;
            assert(s.push(x)[i] == y);
        } else {
            assert(s.push(x)[s.len() as int] == y);
        }
    }
}

/// Removing the head of a duplicate-free sequence keeps it duplicate-free,
/// and splits membership into "was the head" or "is in the rest".
pub proof fn lemma_drop_first_no_dup<A>(s: Seq<A>)
    requires
        s.no_duplicates(),
        s.len() > 0,
    ensures
        s.drop_first().no_duplicates(),
        !s.drop_first().contains(s[0]),
        forall|y: A| #[trigger] s.drop_first().contains(y) ==> s.contains(y),
        forall|y: A| #[trigger] s.contains(y) ==> (y == s[0] || s.drop_first().contains(y)),
{
    assert forall|y: A| #[trigger] s.drop_first().contains(y) implies s.contains(y) by {
        let i = choose|i: int| 0 <= i < s.drop_first().len() && s.drop_first()[i] == y;
        assert(s[i + 1] == y);
    }
    assert forall|y: A| #[trigger] s.contains(y) implies (y == s[0] || s.drop_first().contains(
        y,
    )) by {
        let i = choose|i: int| 0 <= i < s.len() && s[i] == y;
        if i > 0 {
            assert(s.drop_first()[i - 1] == y);
        }
    }
    if s.drop_first().contains(s[0]) {
        let i = choose|i: int| 0 <= i < s.drop_first().len() && s.drop_first()[i] == s[0];
        assert(s[i + 1] == s[0]);
    }
}

/// Membership in a nonempty sequence is membership in its head or its tail.
pub proof fn lemma_head_contains<A>(s: Seq<A>)
    requires
        s.len() > 0,
    ensures
        forall|y: A| #[trigger] s.contains(y) <==> (y == s[0] || s.drop_first().contains(y)),
{
    assert forall|y: A| #[trigger] s.contains(y) implies (y == s[0] || s.drop_first().contains(
        y,
    )) by {
        let i = choose|i: int| 0 <= i < s.len() && s[i] == y;
        if i > 0 {
            assert(s.drop_first()[i - 1] == y);
        }
    }
    assert forall|y: A| y == s[0] || s.drop_first().contains(y) implies #[trigger] s.contains(
        y,
    ) by {
        if s.drop_first().contains(y) {
            let i = choose|i: int| 0 <= i < s.drop_first().len() && s.drop_first()[i] == y;
            assert(s[i + 1] == y);
        } else {
            assert(s[0] == y);
        }
    }
}

/// What admitting a batch of URLs does to the visited list and the frontier:
/// each URL of the batch not yet visited is appended to both, in batch order;
/// a URL already visited is dropped.
pub open spec fn admit_spec(
    visited: Seq<Seq<char>>,
    frontier: Seq<Seq<char>>,
    urls: Seq<Seq<char>>,
) -> (Seq<Seq<char>>, Seq<Seq<char>>)
    decreases urls.len(),
{
    if urls.len() == 0 {
        (visited, frontier)
    } else if visited.contains(urls[0]) {
        admit_spec(visited, frontier, urls.drop_first())
    } else {
        admit_spec(visited.push(urls[0]), frontier.push(urls[0]), urls.drop_first())
    }
}

/// Admission preserves the dedup invariant: the visited list stays
/// duplicate-free and gains exactly the batch, the frontier gains exactly the
/// not-yet-visited part of the batch, and a batch of only-visited URLs
/// changes nothing at all.
pub proof fn lemma_admit_spec(
    visited: Seq<Seq<char>>,
    frontier: Seq<Seq<char>>,
    fetched: Seq<Seq<char>>,
    urls: Seq<Seq<char>>,
)
    requires
        visited.no_duplicates(),
        frontier.no_duplicates(),
        forall|u: Seq<char>| #[trigger] fetched.contains(u) ==> !frontier.contains(u),
        forall|u: Seq<char>| #[trigger] fetched.contains(u) ==> visited.contains(u),
        forall|u: Seq<char>| #[trigger] frontier.contains(u) ==> visited.contains(u),
        forall|u: Seq<char>|
            #[trigger] visited.contains(u) ==> fetched.contains(u) || frontier.contains(u),
    ensures
        ({
            let (v2, f2) = admit_spec(visited, frontier, urls);
            &&& v2.no_duplicates()
            &&& f2.no_duplicates()
            &&& forall|u: Seq<char>|
                #[trigger] v2.contains(u) <==> (visited.contains(u) || urls.contains(u))
            &&& forall|u: Seq<char>|
                #[trigger] f2.contains(u) <==> (frontier.contains(u) || (urls.contains(u)
                    && !visited.contains(u)))
            &&& forall|u: Seq<char>| #[trigger] fetched.contains(u) ==> !f2.contains(u)
            &&& forall|u: Seq<char>| #[trigger] fetched.contains(u) ==> v2.contains(u)
            &&& forall|u: Seq<char>| #[trigger] f2.contains(u) ==> v2.contains(u)
            &&& forall|u: Seq<char>|
                #[trigger] v2.contains(u) ==> fetched.contains(u) || f2.contains(u)
            &&& (forall|u: Seq<char>| #[trigger] urls.contains(u) ==> visited.contains(u)) ==> (
            v2 == visited && f2 == frontier)
        }),
    decreases urls.len(),
{
    if urls.len() == 0 {
    } else {
        let h = urls[0];
        lemma_head_contains(urls);
        assert(urls.contains(h));
        if visited.contains(h) {
            lemma_admit_spec(visited, frontier, fetched, urls.drop_first());
            if (forall|u: Seq<char>| #[trigger] urls.contains(u) ==> visited.contains(u)) {
                assert forall|u: Seq<char>|
                    #[trigger] urls.drop_first().contains(u) implies visited.contains(u) by {
                    assert(urls.contains(u));
                }
            }
        } else {
            lemma_push_no_dup(visited, h);
            lemma_push_no_dup(frontier, h);
            let v1 = visited.push(h);
            let f1 = frontier.push(h);
            assert forall|u: Seq<char>| #[trigger] fetched.contains(u) implies !f1.contains(u)
                && v1.contains(u) by {
                assert(visited.contains(u));
            }
            lemma_admit_spec(v1, f1, fetched, urls.drop_first());
            let (v2, f2) = admit_spec(visited, frontier, urls);
            assert(v2 == admit_spec(v1, f1, urls.drop_first()).0);
            assert(f2 == admit_spec(v1, f1, urls.drop_first()).1);
            assert forall|u: Seq<char>| #[trigger] v2.contains(u) implies (visited.contains(u)
                || urls.contains(u)) by {
                assert(v1.contains(u) || urls.drop_first().contains(u));
            }
            assert forall|u: Seq<char>| visited.contains(u) || urls.contains(u) implies #[trigger]
            v2.contains(u) by {
                if visited.contains(u) || u == h {
                    assert(v1.contains(u));
                } else {
                    assert(urls.drop_first().contains(u));
                }
            }
            assert forall|u: Seq<char>| #[trigger] f2.contains(u) implies (frontier.contains(u) || (
            urls.contains(u) && !visited.contains(u))) by {
                assert(f1.contains(u) || (urls.drop_first().contains(u) && !v1.contains(u)));
                if f1.contains(u) {
                    assert(frontier.contains(u) || u == h);
                } else {
                    assert(urls.contains(u) && !visited.contains(u));
                }
            }
            assert forall|u: Seq<char>|
                frontier.contains(u) || (urls.contains(u) && !visited.contains(
                    u,
                )) implies #[trigger] f2.contains(u) by {
                if frontier.contains(u) || u == h {
                    assert(f1.contains(u));
                } else {
                    assert(urls.drop_first().contains(u) && !v1.contains(u));
                }
            }
        }
    }
}

/// Admission only grows the visited list, and afterwards every URL of the
/// batch is visited.
pub proof fn lemma_admit_grows(
    visited: Seq<Seq<char>>,
    frontier: Seq<Seq<char>>,
    urls: Seq<Seq<char>>,
)
    ensures
        forall|u: Seq<char>|
            #[trigger] visited.contains(u) ==> admit_spec(visited, frontier, urls).0.contains(u),
        forall|u: Seq<char>|
            #[trigger] urls.contains(u) ==> admit_spec(visited, frontier, urls).0.contains(u),
    decreases urls.len(),
{
    if urls.len() > 0 {
        let h = urls[0];
        let res = admit_spec(visited, frontier, urls).0;
        lemma_head_contains(urls);
        assert(urls.contains(h));
        if visited.contains(h) {
            lemma_admit_grows(visited, frontier, urls.drop_first());
            assert(res == admit_spec(visited, frontier, urls.drop_first()).0);
            assert forall|u: Seq<char>| #[trigger] urls.contains(u) implies res.contains(u) by {
                if u == h {
                    assert(visited.contains(u));
                } else {
                    assert(urls.drop_first().contains(u));
                }
            }
        } else {
            lemma_push_no_dup_free(visited, h);
            lemma_admit_grows(visited.push(h), frontier.push(h), urls.drop_first());
            assert(res == admit_spec(visited.push(h), frontier.push(h), urls.drop_first()).0);
            assert forall|u: Seq<char>| #[trigger] visited.contains(u) implies res.contains(u) by {
                assert(visited.push(h).contains(u));
            }
            assert forall|u: Seq<char>| #[trigger] urls.contains(u) implies res.contains(u) by {
                if u == h {
                    assert(visited.push(h).contains(u));
                } else {
                    assert(urls.drop_first().contains(u));
                }
            }
        }
    }
}

/// Membership after a push, with no duplicate-freedom assumed.
pub proof fn lemma_push_no_dup_free<A>(s: Seq<A>, x: A)
    ensures
        forall|y: A| #[trigger] s.push(x).contains(y) <==> (s.contains(y) || y == x),
{
    assert forall|y: A| #[trigger] s.push(x).contains(y) implies (s.contains(y) || y == x) by {
        let i = choose|i: int| 0 <= i < s.push(x).len() && s.push(x)[i] == y;
        if i < s.len() {
            assert(s[i] == y);
        }
    }
    assert forall|y: A| s.contains(y) || y == x implies #[trigger] s.push(x).contains(y) by {
        if s.contains(y) {
            let i = choose|i: int| 0 <= i < s.len() && s[i] == y;
            assert(s.push(x)[i] == y);
        } else {
            assert(s.push(x)[s.len() as int] == y);
        }
    }
}

/// Admitting a batch of only already-visited URLs changes nothing.
pub proof fn lemma_admit_noop(
    visited: Seq<Seq<char>>,
    frontier: Seq<Seq<char>>,
    urls: Seq<Seq<char>>,
)
    requires
        forall|u: Seq<char>| #[trigger] urls.contains(u) ==> visited.contains(u),
    ensures
        admit_spec(visited, frontier, urls) == (visited, frontier),
    decreases urls.len(),
{
    if urls.len() > 0 {
        lemma_head_contains(urls);
        assert(urls.contains(urls[0]));
        assert forall|u: Seq<char>| #[trigger] urls.drop_first().contains(
            u,
        ) implies visited.contains(u) by {
            assert(urls.contains(u));
        }
        lemma_admit_noop(visited, frontier, urls.drop_first());
    }
}

/// Admission is idempotent: admitting the same batch a second time changes
/// neither the visited list nor the frontier. In particular, seeding the
/// same start URLs twice enqueues — and therefore fetches — each URL once.
pub proof fn lemma_admit_idempotent(
    visited: Seq<Seq<char>>,
    frontier: Seq<Seq<char>>,
    urls: Seq<Seq<char>>,
)
    ensures
        ({
            let (v2, f2) = admit_spec(visited, frontier, urls);
            admit_spec(v2, f2, urls) == (v2, f2)
        }),
{
    let (v2, f2) = admit_spec(visited, frontier, urls);
    lemma_admit_grows(visited, frontier, urls);
    lemma_admit_noop(v2, f2, urls);
}

/// Linear scan deciding whether a URL was already admitted.
pub fn contains_url(urls: &Vec<String>, url: &String) -> (b: bool)
    ensures
        b == urls.deep_view().contains(url@),
{
    let mut i: usize = 0;
    while i < urls.len()
        invariant
            i <= urls.len(),
            forall|j: int| 0 <= j < i ==> urls.deep_view()[j] != url@,
        decreases urls.len() - i,
    {
        if urls[i] == *url {
            proof {
                assert(urls.deep_view()[i as int] == url@);
            }
            return true;
        }
        i += 1;
    }
    false
}

/// The admission decision for a concurrent driver that keeps the frontier in
/// a channel: record every not-yet-visited URL of the batch as visited and
/// hand back exactly those URLs, in batch order, for enqueueing. A URL is
/// never handed back twice over the life of one visited list.
pub fn dedup_admit(visited: &mut Vec<String>, urls: Vec<String>) -> (fresh: Vec<String>)
    ensures
        final(visited).deep_view() == admit_spec(
            old(visited).deep_view(),
            Seq::<Seq<char>>::empty(),
            urls.deep_view(),
        ).0,
        fresh.deep_view() == admit_spec(
            old(visited).deep_view(),
            Seq::<Seq<char>>::empty(),
            urls.deep_view(),
        ).1,
{
    let ghost v0 = visited.deep_view();
    let ghost us = urls.deep_view();
    let ghost empty_frontier = Seq::<Seq<char>>::empty();
    let mut fresh: Vec<String> = Vec::new();
    proof {
        assert(us.skip(0) =~= us);
        assert(fresh.deep_view() =~= empty_frontier);
    }
    let mut i: usize = 0;
    while i < urls.len()
        invariant
            i <= urls.len(),
            us == urls.deep_view(),
            admit_spec(v0, empty_frontier, us) == admit_spec(
                visited.deep_view(),
                fresh.deep_view(),
                us.skip(i as int),
            ),
        decreases urls.len() - i,
    {
        let ghost vc = visited.deep_view();
        let ghost fc = fresh.deep_view();
        let is_fresh = !contains_url(visited, &urls[i]);
        proof {
            assert(us.skip(i as int).len() > 0);
            assert(us.skip(i as int)[0] == us[i as int]);
            assert(us[i as int] == urls@[i as int]@);
            assert(us.skip(i as int).drop_first() =~= us.skip(i as int + 1));
        }
        if is_fresh {
            visited.push(urls[i].clone());
            fresh.push(urls[i].clone());
            proof {
                assert(visited.deep_view() =~= vc.push(us[i as int]));
                assert(fresh.deep_view() =~= fc.push(us[i as int]));
            }
        }
        i += 1;
    }
    proof {
        assert(us.skip(i as int) =~= Seq::<Seq<char>>::empty());
    }
    fresh
}

/// The quiescence decision for a concurrent driver, over what it observed at
/// one poll: no buffered discovery batch, no buffered frontier URL, and no
/// fetch in flight.
pub fn quiescence_reached(
    discovery_buffered: usize,
    frontier_buffered: usize,
    in_flight: usize,
) -> (b: bool)
    ensures
        b == (discovery_buffered == 0 && frontier_buffered == 0 && in_flight == 0),
{
    discovery_buffered == 0 && frontier_buffered == 0 && in_flight == 0
}

/// The mutable state of one crawl: the deduplicating visited list, the three
/// bounded queues (frontier, discovery, item), the in-flight counter, and
/// ghost logs of everything that passed through.
///
/// `visited` keeps URLs in admission order and never holds a URL twice.
/// `frontier` holds admitted URLs awaiting fetch. `discovery` holds one URL
/// batch per completed fetch, awaiting admission. `items` holds extracted
/// items awaiting the sink.
pub struct EngineState<T> {
    pub visited: Vec<String>,
    pub frontier: Vec<String>,
    pub discovery: Vec<Vec<String>>,
    pub items: Vec<T>,
    pub in_flight: usize,
    /// Every URL handed to a fetch, in order.
    pub fetched: Ghost<Seq<Seq<char>>>,
    /// Every item ever sent into the item queue, in order.
    pub enqueued: Ghost<Seq<T>>,
    /// Every item ever taken out of the item queue, in order.
    pub processed: Ghost<Seq<T>>,
}

impl<T> EngineState<T> {
    /// The dedup invariant and queue accounting that every engine operation
    /// preserves: no URL is ever fetched twice, no URL waits in the frontier
    /// twice, a URL is visited exactly when it was fetched or still waits in
    /// the frontier, and the item queue holds exactly the enqueued items not
    /// yet processed.
    pub open spec fn wf(self) -> bool {
        &&& self.visited.deep_view().no_duplicates()
        &&& self.fetched@.no_duplicates()
        &&& self.frontier.deep_view().no_duplicates()
        &&& forall|u: Seq<char>|
            #[trigger] self.fetched@.contains(u) ==> !self.frontier.deep_view().contains(u)
        &&& forall|u: Seq<char>|
            #[trigger] self.fetched@.contains(u) ==> self.visited.deep_view().contains(u)
        &&& forall|u: Seq<char>|
            #[trigger] self.frontier.deep_view().contains(u) ==> self.visited.deep_view().contains(
                u,
            )
        &&& forall|u: Seq<char>|
            #[trigger] self.visited.deep_view().contains(u) ==> (self.fetched@.contains(u)
                || self.frontier.deep_view().contains(u))
        &&& self.enqueued@ == self.processed@ + self.items@
    }

    /// The quiescence predicate: no discovery batch is buffered, no URL waits
    /// in the frontier, and no fetch is in flight. Items may still wait in
    /// the item queue; they are drained before a run returns.
    pub open spec fn quiescent(self) -> bool {
        &&& self.discovery.deep_view().len() == 0
        &&& self.frontier.deep_view().len() == 0
        &&& self.in_flight == 0
    }

    /// A fresh engine state: everything empty, nothing in flight.
    pub fn new() -> (s: Self)
        ensures
            s.wf(),
            s.quiescent(),
            s.visited.deep_view() == Seq::<Seq<char>>::empty(),
            s.frontier.deep_view() == Seq::<Seq<char>>::empty(),
            s.discovery.deep_view() == Seq::<Seq<Seq<char>>>::empty(),
            s.items@ == Seq::<T>::empty(),
            s.fetched@ == Seq::<Seq<char>>::empty(),
            s.enqueued@ == Seq::<T>::empty(),
            s.processed@ == Seq::<T>::empty(),
    {
        let s = EngineState {
            visited: Vec::new(),
            frontier: Vec::new(),
            discovery: Vec::new(),
            items: Vec::new(),
            in_flight: 0,
            fetched: Ghost(Seq::empty()),
            enqueued: Ghost(Seq::empty()),
            processed: Ghost(Seq::empty()),
        };
        proof {
            assert(s.visited.deep_view() =~= Seq::<Seq<char>>::empty());
            assert(s.frontier.deep_view() =~= Seq::<Seq<char>>::empty());
            assert(s.discovery.deep_view() =~= Seq::<Seq<Seq<char>>>::empty());
            assert(s.enqueued@ =~= s.processed@ + s.items@);
        }
        s
    }

    /// Whether the run has quiesced. Mirrors the one decision the control
    /// loop makes each poll: both URL queues empty and the counter zero.
    pub fn is_quiescent(&self) -> (b: bool)
        ensures
            b == self.quiescent(),
    {
        self.discovery.len() == 0 && self.frontier.len() == 0 && self.in_flight == 0
    }

    /// Admit a batch of URLs: every URL not yet visited is recorded as
    /// visited and enqueued to the frontier, in batch order; the rest are
    /// dropped. The single point of URL admission, used both for seeding and
    /// for draining the discovery queue.
    pub fn admit_urls(&mut self, urls: Vec<String>)
        requires
            old(self).wf(),
        ensures
            final(self).wf(),
            final(self).visited.deep_view() == admit_spec(
                old(self).visited.deep_view(),
                old(self).frontier.deep_view(),
                urls.deep_view(),
            ).0,
            final(self).frontier.deep_view() == admit_spec(
                old(self).visited.deep_view(),
                old(self).frontier.deep_view(),
                urls.deep_view(),
            ).1,
            final(self).discovery == old(self).discovery,
            final(self).items == old(self).items,
            final(self).in_flight == old(self).in_flight,
            final(self).fetched == old(self).fetched,
            final(self).enqueued == old(self).enqueued,
            final(self).processed == old(self).processed,
    {
        let ghost v0 = self.visited.deep_view();
        let ghost f0 = self.frontier.deep_view();
        let ghost us = urls.deep_view();
        proof {
            assert(us.skip(0) =~= us);
        }
        let mut i: usize = 0;
        while i < urls.len()
            invariant
                i <= urls.len(),
                us == urls.deep_view(),
                admit_spec(v0, f0, us) == admit_spec(
                    self.visited.deep_view(),
                    self.frontier.deep_view(),
                    us.skip(i as int),
                ),
                self.discovery == old(self).discovery,
                self.items == old(self).items,
                self.in_flight == old(self).in_flight,
                self.fetched == old(self).fetched,
                self.enqueued == old(self).enqueued,
                self.processed == old(self).processed,
            decreases urls.len() - i,
        {
            let ghost vc = self.visited.deep_view();
            let ghost fc = self.frontier.deep_view();
            let fresh = !contains_url(&self.visited, &urls[i]);
            proof {
                assert(us.skip(i as int).len() > 0);
                assert(us.skip(i as int)[0] == us[i as int]);
                assert(us[i as int] == urls@[i as int]@);
                assert(us.skip(i as int).drop_first() =~= us.skip(i as int + 1));
            }
            if fresh {
                self.visited.push(urls[i].clone());
                self.frontier.push(urls[i].clone());
                proof {
                    assert(self.visited.deep_view() =~= vc.push(us[i as int]));
                    assert(self.frontier.deep_view() =~= fc.push(us[i as int]));
                }
            }
            i += 1;
        }
        proof {
            assert(us.skip(i as int) =~= Seq::<Seq<char>>::empty());
            lemma_admit_spec(v0, f0, old(self).fetched@, us);
        }
    }

    /// Seed a run with the spider's start URLs. Seeding is admission: a URL
    /// seeded twice is enqueued once.
    pub fn seed(&mut self, urls: Vec<String>)
        requires
            old(self).wf(),
        ensures
            final(self).wf(),
            final(self).visited.deep_view() == admit_spec(
                old(self).visited.deep_view(),
                old(self).frontier.deep_view(),
                urls.deep_view(),
            ).0,
            final(self).frontier.deep_view() == admit_spec(
                old(self).visited.deep_view(),
                old(self).frontier.deep_view(),
                urls.deep_view(),
            ).1,
            final(self).discovery == old(self).discovery,
            final(self).items == old(self).items,
            final(self).in_flight == old(self).in_flight,
            final(self).fetched == old(self).fetched,
            final(self).enqueued == old(self).enqueued,
            final(self).processed == old(self).processed,
    {
        self.admit_urls(urls)
    }

    /// Non-blocking poll of the discovery queue: take the oldest buffered
    /// batch if one is available, never wait for one.
    pub fn poll_discovery(&mut self) -> (r: Option<Vec<String>>)
        requires
            old(self).wf(),
        ensures
            final(self).wf(),
            old(self).discovery@.len() == 0 ==> r is None && *final(self) == *old(self),
            old(self).discovery@.len() > 0 ==> (r matches Some(batch) && {
                &&& batch == old(self).discovery@[0]
                &&& final(self).discovery@ == old(self).discovery@.drop_first()
                &&& final(self).visited == old(self).visited
                &&& final(self).frontier == old(self).frontier
                &&& final(self).items == old(self).items
                &&& final(self).in_flight == old(self).in_flight
                &&& final(self).fetched == old(self).fetched
                &&& final(self).enqueued == old(self).enqueued
                &&& final(self).processed == old(self).processed
            }),
    {
        if self.discovery.len() == 0 {
            None
        } else {
            let batch = self.discovery.remove(0);
            proof {
                assert(self.discovery@ =~= old(self).discovery@.drop_first());
            }
            Some(batch)
        }
    }

    /// Hand out the next URL to fetch, marking the fetch as in flight. The
    /// URL moves from the frontier to the fetch log, so the dedup invariant
    /// keeps it from ever being handed out again.
    pub fn next_url(&mut self) -> (r: Option<String>)
        requires
            old(self).wf(),
            old(self).in_flight < usize::MAX,
        ensures
            final(self).wf(),
            old(self).frontier@.len() == 0 ==> r is None && *final(self) == *old(self),
            old(self).frontier@.len() > 0 ==> (r matches Some(url) && {
                &&& url@ == old(self).frontier.deep_view()[0]
                &&& final(self).frontier.deep_view() == old(self).frontier.deep_view().drop_first()
                &&& final(self).fetched@ == old(self).fetched@.push(url@)
                &&& final(self).in_flight == old(self).in_flight + 1
                &&& final(self).visited == old(self).visited
                &&& final(self).discovery == old(self).discovery
                &&& final(self).items == old(self).items
                &&& final(self).enqueued == old(self).enqueued
                &&& final(self).processed == old(self).processed
            }),
    {
        if self.frontier.len() == 0 {
            None
        } else {
            let ghost fr0 = self.frontier.deep_view();
            let url = self.frontier.remove(0);
            self.in_flight = self.in_flight + 1;
            self.fetched = Ghost(self.fetched@.push(url@));
            proof {
                assert(self.frontier.deep_view() =~= fr0.drop_first());
                assert(fr0.contains(fr0[0]));
                assert(!old(self).fetched@.contains(url@));
                lemma_drop_first_no_dup(fr0);
                lemma_push_no_dup(old(self).fetched@, url@);
                let fe1 = self.fetched@;
                let fr1 = self.frontier.deep_view();
                assert forall|u: Seq<char>| #[trigger] fe1.contains(u) implies !fr1.contains(u)
                    && self.visited.deep_view().contains(u) by {
                    assert(old(self).fetched@.contains(u) || u == url@);
                    if u == url@ {
                        assert(fr0.contains(u));
                        assert(!fr0.drop_first().contains(u));
                    } else {
                        assert(!fr0.contains(u));
                        if fr1.contains(u) {
                            assert(fr0.contains(u));
                        }
                    }
                }
                assert forall|u: Seq<char>|
                    #[trigger] fr1.contains(u) implies self.visited.deep_view().contains(u) by {
                    assert(fr0.contains(u));
                }
                assert forall|u: Seq<char>|
                    #[trigger] self.visited.deep_view().contains(u) implies fe1.contains(u)
                    || fr1.contains(u) by {
                    if !old(self).fetched@.contains(u) {
                        assert(fr0.contains(u));
                        assert(u == fr0[0] || fr0.drop_first().contains(u));
                    }
                }
            }
            Some(url)
        }
    }

    /// Record the outcome of one fetch: on success its items enter the item
    /// queue in order and its discovered URLs enter the discovery queue as
    /// one batch; on failure the fetch contributes an empty batch, so the
    /// bookkeeping still sees it complete. Either way the in-flight counter
    /// drops last.
    pub fn finish_fetch(&mut self, outcome: Result<(Vec<T>, Vec<String>), crate::error::Error>)
        requires
            old(self).wf(),
            old(self).in_flight > 0,
        ensures
            final(self).wf(),
            final(self).in_flight == old(self).in_flight - 1,
            final(self).visited == old(self).visited,
            final(self).frontier == old(self).frontier,
            final(self).fetched == old(self).fetched,
            final(self).processed == old(self).processed,
            match outcome {
                Ok(out) => {
                    &&& final(self).items@ == old(self).items@ + out.0@
                    &&& final(self).enqueued@ == old(self).enqueued@ + out.0@
                    &&& final(self).discovery.deep_view() == old(self).discovery.deep_view().push(
                        out.1.deep_view(),
                    )
                },
                Err(_) => {
                    &&& final(self).items == old(self).items
                    &&& final(self).enqueued == old(self).enqueued
                    &&& final(self).discovery.deep_view() == old(self).discovery.deep_view().push(
                        Seq::<Seq<char>>::empty(),
                    )
                },
            },
    {
        match outcome {
            Ok((mut items, urls)) => {
                let ghost new_items = items@;
                let ghost batch = urls.deep_view();
                self.enqueued = Ghost(self.enqueued@ + new_items);
                self.items.append(&mut items);
                self.discovery.push(urls);
                proof {
                    assert(self.discovery.deep_view() =~= old(self).discovery.deep_view().push(
                        batch,
                    ));
                    assert(self.enqueued@ =~= self.processed@ + self.items@);
                }
            },
            Err(_) => {
                let empty: Vec<String> = Vec::new();
                self.discovery.push(empty);
                proof {
                    assert(self.discovery.deep_view() =~~= old(self).discovery.deep_view().push(
                        Seq::<Seq<char>>::empty(),
                    ));
                }
            },
        }
        self.in_flight = self.in_flight - 1;
    }

    /// Hand out the oldest buffered item for the sink, recording it as
    /// processed. `None` once the queue is empty.
    pub fn next_item(&mut self) -> (r: Option<T>)
        requires
            old(self).wf(),
        ensures
            final(self).wf(),
            old(self).items@.len() == 0 ==> r is None && *final(self) == *old(self),
            old(self).items@.len() > 0 ==> (r matches Some(item) && {
                &&& item == old(self).items@[0]
                &&& final(self).items@ == old(self).items@.drop_first()
                &&& final(self).processed@ == old(self).processed@.push(item)
                &&& final(self).visited == old(self).visited
                &&& final(self).frontier == old(self).frontier
                &&& final(self).discovery == old(self).discovery
                &&& final(self).in_flight == old(self).in_flight
                &&& final(self).fetched == old(self).fetched
                &&& final(self).enqueued == old(self).enqueued
            }),
    {
        if self.items.len() == 0 {
            None
        } else {
            let item = self.items.remove(0);
            self.processed = Ghost(self.processed@.push(item));
            proof {
                assert(self.items@ =~= old(self).items@.drop_first());
                assert(old(self).items@ =~= seq![old(self).items@[0]] + old(
                    self,
                ).items@.drop_first());
                assert(self.processed@ + self.items@ =~= old(self).processed@ + old(self).items@);
            }
            Some(item)
        }
    }
}

} // verus!
