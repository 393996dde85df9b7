//! The synchronous pipeline over an ordered list of roots, and the laws that
//! tie it to the scanner and to the load window.
use vstd::prelude::*;
use crate::scan::{
    candidate_spec, entries_candidates, from_path, listing_view, pairs_view, qualifies,
    root_candidates, EntryInfo,
};
use crate::window::{lemma_released_in_ticket_order, present, LoadWindow};

verus! {

/// The roots' listings, highest priority first, as sequences.
pub open spec fn roots_view(roots: Seq<Option<Vec<Option<EntryInfo>>>>) -> Seq<Option<Seq<Option<EntryInfo>>>> {
    roots.map_values(|l: Option<Vec<Option<EntryInfo>>>| listing_view(l))
}

/// The candidates of all roots: root by root in priority order, and within a
/// root in the order of its listing.
pub open spec fn all_candidates(roots: Seq<Option<Seq<Option<EntryInfo>>>>) -> Seq<(Seq<char>, Seq<char>)>
    decreases roots.len(),
{
    if roots.len() == 0 {
        Seq::empty()
    } else {
        all_candidates(roots.drop_last()) + root_candidates(roots.last())
    }
}

/// The candidates of every root, `from_path` applied to each in turn.
pub fn from_paths(roots: &Vec<Option<Vec<Option<EntryInfo>>>>) -> (r: Vec<(String, String)>)
    ensures
        pairs_view(r@) == all_candidates(roots_view(roots@)),
{
    let mut out: Vec<(String, String)> = Vec::new();
    let mut k: usize = 0;
    while k < roots.len()
        invariant
            k <= roots.len(),
            pairs_view(out@) == all_candidates(roots_view(roots@.take(k as int))),
        decreases roots.len() - k,
    {
        let mut found = from_path(&roots[k]);
        proof {
            assert(roots_view(roots@.take(k + 1)).drop_last() =~= roots_view(roots@.take(k as int)));
            assert(roots_view(roots@.take(k + 1)).last() == listing_view(roots@[k as int]));
            assert(pairs_view(out@ + found@) =~= pairs_view(out@) + pairs_view(found@));
        }
        out.append(&mut found);
        k = k + 1;
    }
    proof {
        assert(roots@.take(roots.len() as int) =~= roots@);
    }
    out
}

/// The results that are present, in order: a load that failed is left out.
pub fn keep_loaded<T>(loads: Vec<Option<T>>) -> (r: Vec<T>)
    ensures
        r@ == present(loads@),
{
    let mut rest = loads;
    let mut out: Vec<T> = Vec::new();
    let ghost all = rest@;
    proof {
        lemma_present_split(Seq::<Option<T>>::empty(), all);
        assert(Seq::<Option<T>>::empty() + all =~= all);
    }
    while rest.len() > 0
        invariant
            present(all) == out@ + present(rest@),
        decreases rest.len(),
    {
        let ghost before = rest@;
        let item = rest.remove(0);
        proof {
            assert(before =~= seq![item] + rest@);
            lemma_present_split(seq![item], rest@);
            lemma_present_single(item);
        }
        match item {
            Some(v) => {
                out.push(v);
            },
            None => {},
        }
        proof {
            assert(present(all) =~= out@ + present(rest@));
        }
    }
    proof {
        assert(present(all) =~= out@);
    }
    out
}

/// `present` of a single result.
pub proof fn lemma_present_single<T>(x: Option<T>)
    ensures
        present(seq![x]) == match x {
            Some(v) => seq![v],
            None => Seq::<T>::empty(),
        },
{
    assert(seq![x].drop_last() =~= Seq::<Option<T>>::empty());
    assert(seq![x].last() == x);
    assert(present(Seq::<Option<T>>::empty()) =~= Seq::<T>::empty());
    match x {
        Some(v) => {
            assert(Seq::<T>::empty().push(v) =~= seq![v]);
        },
        None => {},
    }
}

/// `present` distributes over concatenation.
pub proof fn lemma_present_split<T>(a: Seq<Option<T>>, b: Seq<Option<T>>)
    ensures
        present(a + b) == present(a) + present(b),
    decreases b.len(),
{
    if b.len() == 0 {
        assert(a + b =~= a);
        assert(present(a) + present(b) =~= present(a));
    } else {
        lemma_present_split(a, b.drop_last());
        assert((a + b).drop_last() =~= a + b.drop_last());
        assert((a + b).last() == b.last());
        match b.last() {
            Some(v) => {
                assert(present(a + b) =~= present(a) + present(b));
            },
            None => {
                assert(present(a + b) =~= present(a) + present(b));
            },
        }
    }
}

/// `all_candidates` distributes over concatenation of root lists.
pub proof fn lemma_all_candidates_split(
    a: Seq<Option<Seq<Option<EntryInfo>>>>,
    b: Seq<Option<Seq<Option<EntryInfo>>>>,
)
    ensures
        all_candidates(a + b) == all_candidates(a) + all_candidates(b),
    decreases b.len(),
{
    if b.len() == 0 {
        assert(a + b =~= a);
        assert(all_candidates(a) + all_candidates(b) =~= all_candidates(a));
    } else {
        lemma_all_candidates_split(a, b.drop_last());
        assert((a + b).drop_last() =~= a + b.drop_last());
        assert((a + b).last() == b.last());
        assert(all_candidates(a + b) =~= all_candidates(a) + all_candidates(b));
    }
}

/// Every candidate of a listing comes from an entry that could be read, is a
/// directory and holds the descriptor file, and names that file's path.
pub proof fn lemma_entry_candidates_marked(entries: Seq<Option<EntryInfo>>)
    ensures
        forall|j: int| #![trigger entries_candidates(entries)[j]] 0 <= j < entries_candidates(entries).len() ==> exists|i: int|
            0 <= i < entries.len() && qualifies(#[trigger] entries[i])
                && entries_candidates(entries)[j] == candidate_spec(entries[i]->Some_0),
    decreases entries.len(),
{
    if entries.len() > 0 {
        let init = entries.drop_last();
        lemma_entry_candidates_marked(init);
        assert forall|j: int| #![trigger entries_candidates(entries)[j]] 0 <= j < entries_candidates(entries).len() implies exists|i: int|
            0 <= i < entries.len() && qualifies(#[trigger] entries[i])
                && entries_candidates(entries)[j] == candidate_spec(entries[i]->Some_0) by {
            if j < entries_candidates(init).len() {
                let i = choose|i: int| 0 <= i < init.len() && qualifies(#[trigger] init[i])
                    && entries_candidates(init)[j] == candidate_spec(init[i]->Some_0);
                assert(entries[i] == init[i]);
            } else {
                assert(entries[entries.len() - 1] == entries.last());
            }
        }
    }
}

/// Candidate `c` is entry `i` of root `r`: that root could be read, and the
/// entry is a directory holding the descriptor file.
pub open spec fn marked_entry(roots: Seq<Option<Seq<Option<EntryInfo>>>>, r: int, i: int, c: (Seq<char>, Seq<char>)) -> bool {
    &&& 0 <= r < roots.len()
    &&& roots[r] is Some
    &&& 0 <= i < roots[r]->Some_0.len()
    &&& qualifies(roots[r]->Some_0[i])
    &&& c == candidate_spec(roots[r]->Some_0[i]->Some_0)
}

/// Candidate `c` is some entry of some root, in the sense of `marked_entry`.
pub open spec fn from_marked_entry(roots: Seq<Option<Seq<Option<EntryInfo>>>>, c: (Seq<char>, Seq<char>)) -> bool {
    exists|r: int, i: int| #[trigger] marked_entry(roots, r, i, c)
}

/// Only directories that hold a file named `plugin.ron` become candidates,
/// whatever the roots: each candidate is such an entry of a readable root,
/// paired with the path of that file inside it.
pub proof fn lemma_only_marked_directories(roots: Seq<Option<Seq<Option<EntryInfo>>>>)
    ensures
        forall|j: int| 0 <= j < all_candidates(roots).len() ==> from_marked_entry(roots, #[trigger] all_candidates(roots)[j]),
    decreases roots.len(),
{
    if roots.len() > 0 {
        let init = roots.drop_last();
        lemma_only_marked_directories(init);
        assert(all_candidates(roots) == all_candidates(init) + root_candidates(roots.last()));
        assert forall|j: int| 0 <= j < all_candidates(roots).len() implies from_marked_entry(roots, #[trigger] all_candidates(roots)[j]) by {
            if j < all_candidates(init).len() {
                assert(all_candidates(roots)[j] == all_candidates(init)[j]);
                assert(from_marked_entry(init, all_candidates(init)[j]));
                let (r, i) = choose|r: int, i: int| #[trigger] marked_entry(init, r, i, all_candidates(init)[j]);
                assert(roots[r] == init[r]);
                assert(marked_entry(roots, r, i, all_candidates(roots)[j]));
            } else {
                let r = roots.len() - 1;
                assert(roots[r] == roots.last());
                assert(roots[r] is Some);
                let entries = roots[r]->Some_0;
                lemma_entry_candidates_marked(entries);
                let jj = j - all_candidates(init).len();
                assert(all_candidates(roots)[j] == entries_candidates(entries)[jj]);
                let i = choose|i: int| 0 <= i < entries.len() && qualifies(#[trigger] entries[i])
                    && entries_candidates(entries)[jj] == candidate_spec(entries[i]->Some_0);
                assert(marked_entry(roots, r, i, all_candidates(roots)[j]));
            }
        }
    } else {
        assert(all_candidates(roots).len() == 0);
    }
}

/// An entry without the descriptor file is never yielded: where no entry with
/// source `s` holds the file, no candidate has source `s`.
pub proof fn lemma_unmarked_entry_not_yielded(roots: Seq<Option<Seq<Option<EntryInfo>>>>, s: Seq<char>)
    requires
        forall|r: int, i: int|
            0 <= r < roots.len() && #[trigger] roots[r] is Some && 0 <= i < roots[r]->Some_0.len()
                && #[trigger] roots[r]->Some_0[i] is Some && roots[r]->Some_0[i]->Some_0.source@ == s
                ==> !roots[r]->Some_0[i]->Some_0.has_descriptor,
    ensures
        forall|j: int| 0 <= j < all_candidates(roots).len() ==> (#[trigger] all_candidates(roots)[j]).0 != s,
{
    lemma_only_marked_directories(roots);
    assert forall|j: int| 0 <= j < all_candidates(roots).len() implies
        (#[trigger] all_candidates(roots)[j]).0 != s by {
        assert(from_marked_entry(roots, all_candidates(roots)[j]));
        let (r, i) = choose|r: int, i: int| #[trigger] marked_entry(roots, r, i, all_candidates(roots)[j]);
        assert(roots[r]->Some_0[i] is Some);
    }
}

/// A root that could not be opened contributes no candidate and leaves those
/// of the other roots, and their order, as they are.
pub proof fn lemma_unreadable_root_adds_nothing(roots: Seq<Option<Seq<Option<EntryInfo>>>>, k: int)
    requires
        0 <= k < roots.len(),
        roots[k] is None,
    ensures
        all_candidates(roots) == all_candidates(roots.remove(k)),
{
    let a = roots.take(k);
    let b = roots.skip(k + 1);
    let one = seq![roots[k]];
    assert(roots =~= a + one + b);
    assert(roots.remove(k) =~= a + b);
    lemma_all_candidates_split(a + one, b);
    lemma_all_candidates_split(a, one);
    lemma_all_candidates_split(a, b);
    assert(one.drop_last() =~= Seq::<Option<Seq<Option<EntryInfo>>>>::empty());
    assert(one.last() == roots[k]);
    assert(all_candidates(Seq::<Option<Seq<Option<EntryInfo>>>>::empty()) =~= Seq::<(Seq<char>, Seq<char>)>::empty());
    assert(all_candidates(one) =~= Seq::<(Seq<char>, Seq<char>)>::empty());
    assert(all_candidates(a) + all_candidates(one) =~= all_candidates(a));
}

/// A load that failed is dropped, and every later result is still kept.
pub proof fn lemma_failed_load_skipped<T>(before: Seq<Option<T>>, after: Seq<Option<T>>)
    ensures
        present(before.push(None) + after) == present(before) + present(after),
{
    lemma_present_split(before.push(None), after);
    assert(before.push(None).drop_last() =~= before);
}

/// The window releases what the synchronous pipeline keeps: when ticket `k`
/// was given the load of the `k`-th candidate, and every ticket has left the
/// window, the released values are those of `keep_loaded` on the same loads,
/// in the same order, and so the same set.
pub proof fn lemma_window_matches_sync<T>(w: LoadWindow<T>, loads: Seq<Option<T>>)
    requires
        w.wf(),
        w.first_ticket() == loads.len(),
        forall|k: int| 0 <= k < loads.len() ==> w.completed()[k] == loads[k],
    ensures
        present(w.released()) == present(loads),
        present(w.released()).to_set() == present(loads).to_set(),
{
    lemma_released_in_ticket_order(w);
    assert(w.released() =~= loads);
}

} // verus!
