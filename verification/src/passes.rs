//! What the passes of a firmware cleanup leave in place.
use crate::cleanup::{
    gone_with_all, holds_only_directories, is_check_order, is_hollow, is_plain_dir, is_unused,
    is_whole_tree, law_all_empty_directories_go, lemma_below_chains, lemma_child_towards,
    lemma_gone_stays_gone, lemma_removed_are_directories, lies_in, lies_within, removed_after,
};
use crate::firmware::{all_matches, picked, variants, WalkEntry};
use crate::path::{components, is_below, joined, spelled_in};
use crate::path_set::{all_components, distinct_paths, is_seen_from};
use crate::required::{
    chain_fails, files_fail, files_named, is_asked_for, is_on_trail,
    law_files_are_required_where_they_stand, module_fails, needed_by_file, needed_by_files,
    needed_by_names, required_firmware, scan_fails, ScanWorld,
};
use crate::symlink::{link_chain, link_destination, resolve_symlinks, MAX_HOPS};
use crate::trace::{target_path, trail, MAX_LINKS};
use vstd::prelude::*;

verus! {

/// Where a link leads: nowhere, to an entry of the directory, or out of the
/// directory to something that is a file or is not.
pub enum Lead {
    Nowhere,
    Inside(int),
    Outside(bool),
}

/// All that a firmware directory holds, with the directory itself, and where
/// the link at each position leads.
pub struct FwTree {
    pub entries: Seq<WalkEntry>,
    pub lead: spec_fn(int) -> Lead,
}

/// Whether the entry at position `i` is a link.
pub open spec fn is_link(tree: FwTree, i: int) -> bool {
    tree.entries[i].is_symlink
}

/// Whether the entry at position `i` is a file itself, not a link to one.
pub open spec fn is_plain_file(tree: FwTree, i: int) -> bool {
    tree.entries[i].is_file && !tree.entries[i].is_dir && !is_link(tree, i)
}

/// Whether a tree is in order: it holds all of the directory, and links lead
/// to its entries.
pub open spec fn is_tree(tree: FwTree, top: Seq<char>) -> bool {
    &&& is_whole_tree(tree.entries, top)
    &&& tree.entries.len() <= usize::MAX
    &&& forall|i: int|
        0 <= i < tree.entries.len() && is_link(tree, i) ==> match #[trigger] (tree.lead)(i) {
            Lead::Inside(j) => 0 <= j < tree.entries.len(),
            _ => true,
        }
}

/// What stands at the end of links.
pub enum End {
    Nowhere,
    Entry(int),
    Outside(bool),
}

/// What stands at the end of the links from position `i`, when the entries in
/// `gone` are gone and no more than `hops` places are looked at.
pub open spec fn end_of(tree: FwTree, gone: Set<int>, i: int, hops: nat) -> End
    decreases hops,
{
    if hops == 0 || gone.contains(i) {
        End::Nowhere
    } else if !is_link(tree, i) {
        End::Entry(i)
    } else {
        match (tree.lead)(i) {
            Lead::Nowhere => End::Nowhere,
            Lead::Inside(j) => end_of(tree, gone, j, (hops - 1) as nat),
            Lead::Outside(is_file) => End::Outside(is_file),
        }
    }
}

/// Whether something stands at the end of the links from position `i`.
pub open spec fn leads(tree: FwTree, gone: Set<int>, i: int) -> bool {
    !(end_of(tree, gone, i, MAX_LINKS as nat) is Nowhere)
}

/// Whether a file stands at the end of the links from position `i`.
pub open spec fn is_file_now(tree: FwTree, gone: Set<int>, i: int) -> bool {
    match end_of(tree, gone, i, MAX_LINKS as nat) {
        End::Entry(e) => is_plain_file(tree, e),
        End::Outside(is_file) => is_file,
        End::Nowhere => false,
    }
}

/// Whether the links from position `i` come to position `x`.
pub open spec fn comes_to(tree: FwTree, gone: Set<int>, i: int, x: int, hops: nat) -> bool
    decreases hops,
{
    &&& hops > 0
    &&& !gone.contains(i)
    &&& {
        ||| i == x
        ||| is_link(tree, i) && ((tree.lead)(i) matches Lead::Inside(j) && comes_to(
            tree,
            gone,
            j,
            x,
            (hops - 1) as nat,
        ))
    }
}

/// The entries that are gone when the first `n` were visited by the pass over
/// unused files, each in its turn. `required` are the paths that are needed,
/// as seen from the directory.
pub open spec fn after_unused_files(
    tree: FwTree,
    top: Seq<char>,
    required: Set<Seq<Seq<char>>>,
    gone: Set<int>,
    n: int,
) -> Set<int>
    decreases n,
{
    if n <= 0 {
        gone
    } else {
        let before = after_unused_files(tree, top, required, gone, n - 1);
        if !before.contains(n - 1) && is_unused(
            tree.entries[n - 1].path@,
            is_file_now(tree, before, n - 1),
            top,
            required,
        ) {
            before.insert(n - 1)
        } else {
            before
        }
    }
}

/// The entries that are gone when the first `n` were visited by the pass over
/// links that lead nowhere, each in its turn.
pub open spec fn after_dangling_links(tree: FwTree, gone: Set<int>, n: int) -> Set<int>
    decreases n,
{
    if n <= 0 {
        gone
    } else {
        let before = after_dangling_links(tree, gone, n - 1);
        if !before.contains(n - 1) && is_link(tree, n - 1) && !leads(tree, before, n - 1) {
            before.insert(n - 1)
        } else {
            before
        }
    }
}

/// The entries that are gone after all passes of a cleanup that deletes.
pub open spec fn after_cleanup(
    tree: FwTree,
    order: Seq<usize>,
    top: Seq<char>,
    required: Set<Seq<Seq<char>>>,
    gone: Set<int>,
) -> Set<int> {
    let n = tree.entries.len() as int;
    let files = after_unused_files(tree, top, required, gone, n);
    let links = after_dangling_links(tree, files, n);
    let dirs = removed_after(tree.entries, order, top, links, order.len() as int);
    after_dangling_links(tree, dirs, n)
}

/// With more entries gone, the links that still lead somewhere lead where they
/// did.
proof fn lemma_fewer_entries(tree: FwTree, gone: Set<int>, more: Set<int>, i: int, hops: nat)
    requires
        gone.subset_of(more),
        !(end_of(tree, more, i, hops) is Nowhere),
    ensures
        end_of(tree, gone, i, hops) == end_of(tree, more, i, hops),
    decreases hops,
{
    if is_link(tree, i) {
        if let Lead::Inside(j) = (tree.lead)(i) {
            lemma_fewer_entries(tree, gone, more, j, (hops - 1) as nat);
        }
    }
}

/// Links lead where they did while nothing that they come to goes.
proof fn lemma_way_stays(tree: FwTree, gone: Set<int>, more: Set<int>, i: int, hops: nat)
    requires
        forall|x: int| #[trigger] comes_to(tree, gone, i, x, hops) ==> !more.contains(x),
        !(end_of(tree, gone, i, hops) is Nowhere),
    ensures
        end_of(tree, more, i, hops) == end_of(tree, gone, i, hops),
    decreases hops,
{
    assert(comes_to(tree, gone, i, i, hops));
    if is_link(tree, i) {
        if let Lead::Inside(j) = (tree.lead)(i) {
            assert forall|x: int| #[trigger] comes_to(
                tree,
                gone,
                j,
                x,
                (hops - 1) as nat,
            ) implies !more.contains(x) by {
                assert(comes_to(tree, gone, i, x, hops));
            }
            lemma_way_stays(tree, gone, more, j, (hops - 1) as nat);
        }
    }
}

/// What the links from a position come to has the same end.
proof fn lemma_same_end(tree: FwTree, gone: Set<int>, i: int, x: int, hops: nat, enough: nat)
    requires
        comes_to(tree, gone, i, x, hops),
        !(end_of(tree, gone, i, hops) is Nowhere),
        hops <= enough,
    ensures
        end_of(tree, gone, x, enough) == end_of(tree, gone, i, hops),
    decreases hops,
{
    if i == x {
        lemma_more_hops(tree, gone, i, hops, enough);
    } else if let Lead::Inside(j) = (tree.lead)(i) {
        lemma_same_end(tree, gone, j, x, (hops - 1) as nat, enough);
    }
}

/// Looking at more places does not change what was found.
proof fn lemma_more_hops(tree: FwTree, gone: Set<int>, i: int, hops: nat, enough: nat)
    requires
        !(end_of(tree, gone, i, hops) is Nowhere),
        hops <= enough,
    ensures
        end_of(tree, gone, i, enough) == end_of(tree, gone, i, hops),
    decreases hops,
{
    if is_link(tree, i) {
        if let Lead::Inside(j) = (tree.lead)(i) {
            lemma_more_hops(tree, gone, j, (hops - 1) as nat, (enough - 1) as nat);
        }
    }
}

/// Whether `more` adds to `gone` only entries whose links led nowhere.
spec fn adds_dangling(tree: FwTree, gone: Set<int>, more: Set<int>) -> bool {
    &&& gone.subset_of(more)
    &&& forall|x: int| #[trigger] more.contains(x) ==> gone.contains(x) || !leads(tree, gone, x)
}

/// Removing what leads nowhere changes nothing for what leads somewhere.
proof fn lemma_leads_on(tree: FwTree, gone: Set<int>, more: Set<int>, i: int)
    requires
        adds_dangling(tree, gone, more),
    ensures
        leads(tree, more, i) <==> leads(tree, gone, i),
{
    let hops = MAX_LINKS as nat;
    if leads(tree, more, i) {
        lemma_fewer_entries(tree, gone, more, i, hops);
    }
    if leads(tree, gone, i) {
        assert forall|x: int| #[trigger] comes_to(
            tree,
            gone,
            i,
            x,
            hops,
        ) implies !more.contains(x) by {
            lemma_same_end(tree, gone, i, x, hops, hops);
            lemma_comes_to_present(tree, gone, i, x, hops);
        }
        lemma_way_stays(tree, gone, more, i, hops);
    }
}

proof fn lemma_comes_to_present(tree: FwTree, gone: Set<int>, i: int, x: int, hops: nat)
    requires
        comes_to(tree, gone, i, x, hops),
    ensures
        !gone.contains(x),
    decreases hops,
{
    if i != x {
        if let Lead::Inside(j) = (tree.lead)(i) {
            lemma_comes_to_present(tree, gone, j, x, (hops - 1) as nat);
        }
    }
}

proof fn lemma_dangling_links(tree: FwTree, gone: Set<int>, n: int)
    requires
        0 <= n <= tree.entries.len(),
    ensures
        forall|i: int| #[trigger]
            after_dangling_links(tree, gone, n).contains(i) <==> gone.contains(i) || (0 <= i < n
                && is_link(tree, i) && !leads(tree, gone, i)),
    decreases n,
{
    if n > 0 {
        lemma_dangling_links(tree, gone, n - 1);
        let before = after_dangling_links(tree, gone, n - 1);
        assert(adds_dangling(tree, gone, before));
        lemma_leads_on(tree, gone, before, n - 1);
    }
}

/// The pass over dangling links removes the links that lead nowhere, and
/// nothing else; of the links that are left, each leads somewhere.
pub proof fn law_no_dangling_link_is_left(tree: FwTree, gone: Set<int>, i: int)
    requires
        0 <= i < tree.entries.len(),
    ensures
        ({
            let after = after_dangling_links(tree, gone, tree.entries.len() as int);
            &&& after.contains(i) <==> gone.contains(i) || (is_link(tree, i) && !leads(
                tree,
                gone,
                i,
            ))
            &&& !after.contains(i) && is_link(tree, i) ==> leads(tree, after, i)
        }),
{
    let n = tree.entries.len() as int;
    let after = after_dangling_links(tree, gone, n);
    lemma_dangling_links(tree, gone, n);
    assert(adds_dangling(tree, gone, after));
    lemma_leads_on(tree, gone, after, i);
}

proof fn lemma_unused_files(
    tree: FwTree,
    top: Seq<char>,
    required: Set<Seq<Seq<char>>>,
    gone: Set<int>,
    n: int,
)
    requires
        0 <= n <= tree.entries.len(),
    ensures
        ({
            let after = after_unused_files(tree, top, required, gone, n);
            &&& gone.subset_of(after)
            &&& forall|i: int| #[trigger]
                after.contains(i) ==> gone.contains(i) || (0 <= i < n && !is_plain_dir(
                    tree.entries[i],
                ) && is_unused(tree.entries[i].path@, true, top, required))
            &&& forall|i: int|
                0 <= i < n && is_file_now(tree, after, i) ==> !is_unused(
                    (#[trigger] tree.entries[i]).path@,
                    true,
                    top,
                    required,
                )
        }),
    decreases n,
{
    if n > 0 {
        lemma_unused_files(tree, top, required, gone, n - 1);
        let before = after_unused_files(tree, top, required, gone, n - 1);
        let after = after_unused_files(tree, top, required, gone, n);
        assert forall|i: int| 0 <= i < n && is_file_now(tree, after, i) implies !is_unused(
            (#[trigger] tree.entries[i]).path@,
            true,
            top,
            required,
        ) by {
            lemma_fewer_entries(tree, before, after, i, MAX_LINKS as nat);
            assert(!after.contains(i));
        }
    }
}

/// The pass over unused files removes only files and links that nothing
/// requires, and leaves none of them: every file that is left, and every link
/// to one, is required.
pub proof fn law_only_required_files_are_left(
    tree: FwTree,
    top: Seq<char>,
    required: Set<Seq<Seq<char>>>,
    gone: Set<int>,
    i: int,
)
    requires
        0 <= i < tree.entries.len(),
    ensures
        ({
            let after = after_unused_files(
                tree,
                top,
                required,
                gone,
                tree.entries.len() as int,
            );
            &&& gone.contains(i) ==> after.contains(i)
            &&& after.contains(i) && !gone.contains(i) ==> is_unused(
                tree.entries[i].path@,
                true,
                top,
                required,
            ) && !is_plain_dir(tree.entries[i])
            &&& is_file_now(tree, after, i) ==> !is_unused(
                tree.entries[i].path@,
                true,
                top,
                required,
            )
        }),
{
    lemma_unused_files(tree, top, required, gone, tree.entries.len() as int);
}

/// Whether no link leads to a directory.
pub open spec fn no_link_to_directory(tree: FwTree) -> bool {
    forall|i: int|
        0 <= i < tree.entries.len() && #[trigger] is_link(tree, i) ==> match end_of(
            tree,
            Set::empty(),
            i,
            MAX_LINKS as nat,
        ) {
            End::Entry(e) => !is_plain_dir(tree.entries[e]),
            _ => true,
        }
}

proof fn lemma_stays_in_range(
    tree: FwTree,
    top: Seq<char>,
    gone: Set<int>,
    i: int,
    x: int,
    hops: nat,
)
    requires
        is_tree(tree, top),
        0 <= i < tree.entries.len(),
        comes_to(tree, gone, i, x, hops),
    ensures
        0 <= x < tree.entries.len(),
    decreases hops,
{
    if i != x {
        if let Lead::Inside(j) = (tree.lead)(i) {
            lemma_stays_in_range(tree, top, gone, j, x, (hops - 1) as nat);
        }
    }
}

/// Where nothing on the way is gone, the links come to what they came to.
proof fn lemma_comes_to_still(
    tree: FwTree,
    gone: Set<int>,
    more: Set<int>,
    i: int,
    x: int,
    hops: nat,
)
    requires
        forall|y: int| #[trigger] comes_to(tree, gone, i, y, hops) ==> !more.contains(y),
        comes_to(tree, gone, i, x, hops),
    ensures
        comes_to(tree, more, i, x, hops),
    decreases hops,
{
    assert(comes_to(tree, gone, i, i, hops));
    if i != x {
        if let Lead::Inside(j) = (tree.lead)(i) {
            assert forall|y: int| #[trigger] comes_to(
                tree,
                gone,
                j,
                y,
                (hops - 1) as nat,
            ) implies !more.contains(y) by {
                assert(comes_to(tree, gone, i, y, hops));
            }
            lemma_comes_to_still(tree, gone, more, j, x, (hops - 1) as nat);
        }
    }
}

/// The end of the links from a position is that of the links from what they
/// come to.
proof fn lemma_end_beyond(
    tree: FwTree,
    gone: Set<int>,
    i: int,
    x: int,
    hops: nat,
    further: nat,
)
    requires
        comes_to(tree, gone, i, x, hops),
        !(end_of(tree, gone, x, further) is Nowhere),
    ensures
        end_of(tree, gone, i, hops + further) == end_of(tree, gone, x, further),
    decreases hops,
{
    if i == x {
        lemma_more_hops(tree, gone, i, further, hops + further);
    } else if let Lead::Inside(j) = (tree.lead)(i) {
        lemma_end_beyond(tree, gone, j, x, (hops - 1) as nat, further);
        assert((hops - 1) as nat + further == (hops + further - 1) as nat);
    }
}

/// Whether nothing that the links from position `i` come to is gone.
spec fn is_way_clear(tree: FwTree, gone: Set<int>, i: int) -> bool {
    forall|x: int| #[trigger]
        comes_to(tree, Set::empty(), i, x, MAX_LINKS as nat) ==> !gone.contains(x)
}

proof fn lemma_clear_way(tree: FwTree, gone: Set<int>, i: int)
    requires
        is_way_clear(tree, gone, i),
        leads(tree, Set::empty(), i),
    ensures
        end_of(tree, gone, i, MAX_LINKS as nat) == end_of(
            tree,
            Set::empty(),
            i,
            MAX_LINKS as nat,
        ),
        forall|x: int| #[trigger]
            comes_to(tree, Set::empty(), i, x, MAX_LINKS as nat) ==> leads(tree, gone, x)
                && comes_to(tree, gone, i, x, MAX_LINKS as nat),
{
    let (none, hops) = (Set::<int>::empty(), MAX_LINKS as nat);
    lemma_way_stays(tree, none, gone, i, hops);
    assert forall|x: int| #[trigger] comes_to(tree, none, i, x, hops) implies leads(tree, gone, x)
        && comes_to(tree, gone, i, x, hops) by {
        lemma_comes_to_still(tree, none, gone, i, x, hops);
        lemma_same_end(tree, gone, i, x, hops, hops);
    }
}

/// The pass over dangling links leaves a clear way clear.
proof fn lemma_dangling_pass_keeps_way(tree: FwTree, gone: Set<int>, i: int)
    requires
        is_way_clear(tree, gone, i),
        leads(tree, Set::empty(), i),
    ensures
        is_way_clear(tree, after_dangling_links(tree, gone, tree.entries.len() as int), i),
{
    lemma_clear_way(tree, gone, i);
    lemma_dangling_links(tree, gone, tree.entries.len() as int);
}

/// Only directories hold something.
proof fn lemma_only_directories_hold(tree: FwTree, top: Seq<char>, i: int, j: int)
    requires
        is_tree(tree, top),
        0 <= i < tree.entries.len(),
        0 <= j < tree.entries.len(),
        lies_within(tree.entries[j], tree.entries[i]),
    ensures
        is_plain_dir(tree.entries[i]),
{
    let entries = tree.entries;
    let c = lemma_child_towards(entries, top, j, i);
    assert(is_below(entries[i].path@, top));
    let d = choose|d: int|
        0 <= d < entries.len() && is_plain_dir(#[trigger] entries[d]) && lies_in(
            entries[c],
            entries[d],
        );
    assert(components(entries[d].path@) =~= components(entries[i].path@));
}

/// What the first passes remove holds nothing.
proof fn lemma_gone_with_all(tree: FwTree, top: Seq<char>, gone: Set<int>)
    requires
        is_tree(tree, top),
        forall|i: int| #[trigger]
            gone.contains(i) && 0 <= i < tree.entries.len() ==> !is_plain_dir(tree.entries[i]),
    ensures
        gone_with_all(tree.entries, gone),
{
    assert forall|i: int, j: int|
        0 <= i < tree.entries.len() && 0 <= j < tree.entries.len() && gone.contains(i)
            && #[trigger] lies_within(tree.entries[j], tree.entries[i]) implies gone.contains(j) by {
        lemma_only_directories_hold(tree, top, i, j);
    }
}

/// The state of the firmware directory after the passes of a cleanup of the
/// whole directory, one after the other.
spec fn pass_states(
    tree: FwTree,
    order: Seq<usize>,
    top: Seq<char>,
    required: Set<Seq<Seq<char>>>,
) -> (Set<int>, Set<int>, Set<int>) {
    let n = tree.entries.len() as int;
    let files = after_unused_files(tree, top, required, Set::empty(), n);
    let links = after_dangling_links(tree, files, n);
    (files, links, removed_after(tree.entries, order, top, links, order.len() as int))
}

proof fn lemma_first_passes(
    tree: FwTree,
    order: Seq<usize>,
    top: Seq<char>,
    required: Set<Seq<Seq<char>>>,
)
    requires
        is_tree(tree, top),
        is_check_order(tree.entries, order),
    ensures
        ({
            let (files, links, dirs) = pass_states(tree, order, top, required);
            &&& files.subset_of(links)
            &&& links.subset_of(dirs)
            &&& gone_with_all(tree.entries, links)
            &&& forall|i: int|
                0 <= i < tree.entries.len() && #[trigger] links.contains(i) ==> !is_plain_dir(
                    tree.entries[i],
                )
            &&& forall|i: int|
                0 <= i < tree.entries.len() ==> (#[trigger] dirs.contains(i) <==> links.contains(i)
                    || is_hollow(tree.entries, top, links, i))
        }),
{
    let n = tree.entries.len() as int;
    let (files, links, dirs) = pass_states(tree, order, top, required);
    lemma_unused_files(tree, top, required, Set::empty(), n);
    lemma_dangling_links(tree, files, n);
    assert forall|i: int| #[trigger] links.contains(i) && 0 <= i < n implies !is_plain_dir(
        tree.entries[i],
    ) by {
        if files.contains(i) {
            assert(!Set::<int>::empty().contains(i));
        }
    }
    lemma_gone_with_all(tree, top, links);
    lemma_gone_stays_gone(tree.entries, order, top, links, order.len() as int);
    assert forall|i: int| 0 <= i < n implies (#[trigger] dirs.contains(i) <==> links.contains(i)
        || is_hollow(tree.entries, top, links, i)) by {
        law_all_empty_directories_go(tree.entries, order, top, links, i);
    }
}

/// The last pass removes nothing, and all links that are left lead somewhere.
#[verifier::rlimit(30)]
proof fn lemma_last_pass(
    tree: FwTree,
    order: Seq<usize>,
    top: Seq<char>,
    required: Set<Seq<Seq<char>>>,
)
    requires
        is_tree(tree, top),
        is_check_order(tree.entries, order),
        no_link_to_directory(tree),
    ensures
        ({
            let dirs = pass_states(tree, order, top, required).2;
            &&& after_dangling_links(tree, dirs, tree.entries.len() as int) == dirs
            &&& forall|i: int|
                0 <= i < tree.entries.len() && !dirs.contains(i) && #[trigger] is_link(tree, i)
                    ==> leads(tree, dirs, i)
        }),
{
    let (n, hops) = (tree.entries.len() as int, MAX_LINKS as nat);
    let (files, links, dirs) = pass_states(tree, order, top, required);
    lemma_first_passes(tree, order, top, required);
    assert forall|i: int| 0 <= i < n && !dirs.contains(i) && #[trigger] is_link(
        tree,
        i,
    ) implies leads(tree, dirs, i) by {
        law_no_dangling_link_is_left(tree, files, i);
        assert(!links.contains(i));
        assert(leads(tree, links, i));
        lemma_fewer_entries(tree, Set::empty(), links, i, hops);
        assert forall|x: int| #[trigger] comes_to(
            tree,
            links,
            i,
            x,
            hops,
        ) implies !dirs.contains(x) by {
            lemma_stays_in_range(tree, top, links, i, x, hops);
            lemma_comes_to_present(tree, links, i, x, hops);
            lemma_same_end(tree, links, i, x, hops, hops);
            if dirs.contains(x) {
                assert(is_plain_dir(tree.entries[x]));
                assert(end_of(tree, links, x, hops) == End::Entry(x));
            }
        }
        lemma_way_stays(tree, links, dirs, i, hops);
    }
    lemma_dangling_links(tree, dirs, n);
    assert(after_dangling_links(tree, dirs, n) =~= dirs);
}

/// A way to a file on which everything is required outlasts the cleanup.
proof fn lemma_required_way_survives(
    tree: FwTree,
    order: Seq<usize>,
    top: Seq<char>,
    required: Set<Seq<Seq<char>>>,
    f: int,
)
    requires
        is_tree(tree, top),
        is_check_order(tree.entries, order),
        0 <= f < tree.entries.len(),
        is_file_now(tree, Set::empty(), f),
        forall|x: int| #[trigger]
            comes_to(tree, Set::empty(), f, x, MAX_LINKS as nat) ==> !is_unused(
                tree.entries[x].path@,
                true,
                top,
                required,
            ),
    ensures
        is_way_clear(tree, pass_states(tree, order, top, required).2, f),
{
    let (none, n, hops) = (Set::<int>::empty(), tree.entries.len() as int, MAX_LINKS as nat);
    let (files, links, dirs) = pass_states(tree, order, top, required);
    lemma_unused_files(tree, top, required, none, n);
    assert(is_way_clear(tree, files, f));
    lemma_dangling_pass_keeps_way(tree, files, f);
    lemma_first_passes(tree, order, top, required);
    assert forall|x: int| #[trigger] comes_to(tree, none, f, x, hops) implies !dirs.contains(x) by {
        lemma_stays_in_range(tree, top, none, f, x, hops);
        lemma_same_end(tree, none, f, x, hops, hops);
        if dirs.contains(x) {
            assert(is_plain_dir(tree.entries[x]));
            assert(end_of(tree, none, x, hops) == End::Entry(x));
        }
    }
}

/// A directory that the cleanup left still holds something.
proof fn lemma_no_hollow_directory(
    tree: FwTree,
    order: Seq<usize>,
    top: Seq<char>,
    required: Set<Seq<Seq<char>>>,
    i: int,
)
    requires
        is_tree(tree, top),
        is_check_order(tree.entries, order),
        0 <= i < tree.entries.len(),
        is_hollow(tree.entries, top, pass_states(tree, order, top, required).2, i),
    ensures
        pass_states(tree, order, top, required).2.contains(i),
{
    let (files, links, dirs) = pass_states(tree, order, top, required);
    lemma_first_passes(tree, order, top, required);
    if !dirs.contains(i) {
        assert(!holds_only_directories(tree.entries, links, i));
        let j = choose|j: int|
            0 <= j < tree.entries.len() && lies_within(#[trigger] tree.entries[j], tree.entries[i])
                && !links.contains(j) && !is_plain_dir(tree.entries[j]);
        assert(!dirs.contains(j));
    }
}

#[verifier::rlimit(30)]
proof fn lemma_all_gone_with_all(
    tree: FwTree,
    order: Seq<usize>,
    top: Seq<char>,
    required: Set<Seq<Seq<char>>>,
)
    requires
        is_tree(tree, top),
        is_check_order(tree.entries, order),
    ensures
        gone_with_all(tree.entries, pass_states(tree, order, top, required).2),
{
    let (files, links, dirs) = pass_states(tree, order, top, required);
    let entries = tree.entries;
    lemma_first_passes(tree, order, top, required);
    assert forall|i: int, j: int|
        0 <= i < entries.len() && 0 <= j < entries.len() && dirs.contains(i) && #[trigger]
            lies_within(entries[j], entries[i]) implies dirs.contains(j) by {
        if !links.contains(i) && !links.contains(j) {
            assert(is_plain_dir(entries[j]));
            assert(is_below(entries[i].path@, top));
            assert forall|k: int|
                0 <= k < entries.len() && lies_within(
                    #[trigger] entries[k],
                    entries[j],
                ) implies links.contains(k) || is_plain_dir(entries[k]) by {
                lemma_below_chains(entries[k].path@, entries[j].path@, entries[i].path@);
                assert(lies_within(entries[k], entries[i]));
            }
            assert(holds_only_directories(entries, links, j));
        }
    }
}

/// Where the files that are left are all required, a cleanup removes nothing
/// from what a cleanup left.
proof fn lemma_nothing_more_goes(
    tree: FwTree,
    order: Seq<usize>,
    top: Seq<char>,
    required: Set<Seq<Seq<char>>>,
    again: Set<Seq<Seq<char>>>,
)
    requires
        is_tree(tree, top),
        is_check_order(tree.entries, order),
        no_link_to_directory(tree),
        forall|i: int|
            0 <= i < tree.entries.len() && is_file_now(
                tree,
                pass_states(tree, order, top, required).2,
                i,
            ) ==> !is_unused((#[trigger] tree.entries[i]).path@, true, top, again),
    ensures
        after_cleanup(tree, order, top, again, pass_states(tree, order, top, required).2)
            == pass_states(tree, order, top, required).2,
{
    let n = tree.entries.len() as int;
    let dirs = pass_states(tree, order, top, required).2;
    lemma_first_passes(tree, order, top, required);
    lemma_last_pass(tree, order, top, required);
    lemma_all_gone_with_all(tree, order, top, required);
    lemma_no_unused_file(tree, top, again, dirs, n);
    let after = removed_after(tree.entries, order, top, dirs, order.len() as int);
    lemma_gone_stays_gone(tree.entries, order, top, dirs, order.len() as int);
    assert forall|i: int| after.contains(i) implies dirs.contains(i) by {
        if 0 <= i < n {
            law_all_empty_directories_go(tree.entries, order, top, dirs, i);
            if !dirs.contains(i) {
                lemma_no_hollow_directory(tree, order, top, required, i);
            }
        } else if !dirs.contains(i) {
            lemma_removed_are_directories(
                tree.entries,
                order,
                top,
                dirs,
                order.len() as int,
                i,
            );
        }
    }
    assert(after =~= dirs);
}

proof fn lemma_no_unused_file(
    tree: FwTree,
    top: Seq<char>,
    required: Set<Seq<Seq<char>>>,
    gone: Set<int>,
    n: int,
)
    requires
        0 <= n <= tree.entries.len(),
        forall|i: int|
            0 <= i < tree.entries.len() && is_file_now(tree, gone, i) ==> !is_unused(
                (#[trigger] tree.entries[i]).path@,
                true,
                top,
                required,
            ),
    ensures
        after_unused_files(tree, top, required, gone, n) == gone,
    decreases n,
{
    if n > 0 {
        lemma_no_unused_file(tree, top, required, gone, n - 1);
        assert(tree.entries[n - 1] == tree.entries[n - 1]);
    }
}

/// Whether `path` is that of the entry at position `i`.
pub open spec fn names_entry(tree: FwTree, path: Seq<char>, i: int) -> bool {
    0 <= i < tree.entries.len() && components(path) == components(tree.entries[i].path@)
}

/// Whether `place` is where the entry at position `i` really stands.
pub open spec fn stands_at(
    world: ScanWorld,
    tree: FwTree,
    top: Seq<char>,
    place: Seq<char>,
    i: int,
) -> bool {
    is_below(place, world.real_dir) && names_entry(
        tree,
        spelled_in(top, world.real_dir, place),
        i,
    )
}

/// Whether a trace from `path` comes to no entry of the tree.
pub open spec fn stays_away(
    world: ScanWorld,
    tree: FwTree,
    top: Seq<char>,
    path: Seq<char>,
) -> bool {
    forall|hops: nat, k: int, i: int|
        0 <= k < trail(world.places, path, hops).len() ==> !(#[trigger] stands_at(
            world,
            tree,
            top,
            #[trigger] trail(world.places, path, hops)[k],
            i,
        ))
}

/// Whether a system shows where the link at position `i` leads: its path is
/// `path`, it stands at `place` and has this target.
pub open spec fn shows_lead(
    world: ScanWorld,
    tree: FwTree,
    top: Seq<char>,
    i: int,
    path: Seq<char>,
    place: Seq<char>,
    target: Seq<char>,
) -> bool {
    let spelled = link_destination(path, target);
    let traced = target_path(place, target);
    match (tree.lead)(i) {
        Lead::Inside(j) => names_entry(tree, spelled, j) && (world.places)(traced) == (
        world.places)(spelled),
        Lead::Outside(_) => !is_below(spelled, top) && stays_away(world, tree, top, traced),
        Lead::Nowhere => !(is_below(spelled, top) && (world.links.exists)(spelled)) && stays_away(
            world,
            tree,
            top,
            traced,
        ),
    }
}

/// Whether a system shows the entry at position `i` under its path, as it is
/// when the entries in `gone` are gone.
pub open spec fn shows_entry(
    world: ScanWorld,
    tree: FwTree,
    top: Seq<char>,
    gone: Set<int>,
    i: int,
    path: Seq<char>,
) -> bool {
    if gone.contains(i) {
        &&& !(world.links.exists)(path)
        &&& (world.links.target)(path) is None
        &&& match (world.places)(path) {
            Some(place) => place.target is None && stands_at(world, tree, top, place.path, i),
            None => true,
        }
    } else {
        &&& !(world.unseen)(path)
        &&& (world.links.exists)(path) <==> leads(tree, gone, i)
        &&& is_link(tree, i) <==> (world.links.target)(path) is Some
        &&& match (world.places)(path) {
            Some(place) => {
                &&& stands_at(world, tree, top, place.path, i)
                &&& place.target == (world.links.target)(path)
                &&& place.target matches Some(target) ==> shows_lead(
                    world,
                    tree,
                    top,
                    i,
                    path,
                    place.path,
                    target,
                )
            },
            None => false,
        }
    }
}

/// Whether a system shows a tree as it is when the entries in `gone` are gone,
/// and what its modules ask for is found under the paths of entries.
#[verifier::opaque]
pub open spec fn shows_tree(
    world: ScanWorld,
    tree: FwTree,
    top: Seq<char>,
    gone: Set<int>,
) -> bool {
    &&& forall|path: Seq<char>, i: int| #[trigger]
        names_entry(tree, path, i) ==> shows_entry(world, tree, top, gone, i, path)
    &&& forall|module: Seq<char>, file: Seq<char>| #[trigger]
        is_asked_for(world, module, top, file) ==> exists|i: int|
            names_entry(tree, file, i) && !gone.contains(i)
}

proof fn lemma_shows_entry(
    world: ScanWorld,
    tree: FwTree,
    top: Seq<char>,
    gone: Set<int>,
    i: int,
    path: Seq<char>,
)
    requires
        shows_tree(world, tree, top, gone),
        names_entry(tree, path, i),
    ensures
        shows_entry(world, tree, top, gone, i, path),
{
    reveal(shows_tree);
}

proof fn lemma_asked_is_entry(
    world: ScanWorld,
    tree: FwTree,
    top: Seq<char>,
    gone: Set<int>,
    module: Seq<char>,
    file: Seq<char>,
) -> (i: int)
    requires
        shows_tree(world, tree, top, gone),
        is_asked_for(world, module, top, file),
    ensures
        names_entry(tree, file, i),
        !gone.contains(i),
{
    reveal(shows_tree);
    choose|i: int| names_entry(tree, file, i) && !gone.contains(i)
}

/// Whether the modules of two systems ask for the same, and what a pattern
/// matched in the first it matches in the second, where it is not in `gone`.
pub open spec fn asks_alike(
    world: ScanWorld,
    later: ScanWorld,
    tree: FwTree,
    gone: Set<int>,
) -> bool {
    &&& later.names == world.names
    &&& later.mute == world.mute
    &&& forall|pattern: Seq<char>, path: Seq<char>, i: int|
        #[trigger] (world.matched)(pattern).contains(path) && #[trigger] names_entry(
            tree,
            path,
            i,
        ) && !gone.contains(i) ==> (later.matched)(pattern).contains(path)
}

/// What the links of an entry come to is required where a module asks for the
/// entry.
#[verifier::spinoff_prover]
#[verifier::rlimit(60)]
proof fn lemma_trail_holds_way(
    world: ScanWorld,
    tree: FwTree,
    top: Seq<char>,
    gone: Set<int>,
    path: Seq<char>,
    i: int,
    x: int,
    hops: nat,
)
    requires
        is_tree(tree, top),
        shows_tree(world, tree, top, gone),
        names_entry(tree, path, i),
        comes_to(tree, gone, i, x, hops),
    ensures
        is_on_trail(
            trail(world.places, path, hops),
            top,
            world.real_dir,
            components(tree.entries[x].path@),
        ),
    decreases hops,
{
    let steps = trail(world.places, path, hops);
    lemma_shows_entry(world, tree, top, gone, i, path);
    let place = (world.places)(path)->Some_0;
    assert(steps[0] == place.path);
    if i == x {
        assert(is_below(steps[0], world.real_dir));
    } else if let Lead::Inside(j) = (tree.lead)(i) {
        let target = place.target->Some_0;
        let (spelled, traced) = (
            link_destination(path, target),
            target_path(place.path, target),
        );
        lemma_trail_holds_way(world, tree, top, gone, spelled, j, x, (hops - 1) as nat);
        let rest = trail(world.places, traced, (hops - 1) as nat);
        assert(rest == trail(world.places, spelled, (hops - 1) as nat));
        assert(steps == seq![place.path] + rest);
        let k = choose|k: int|
            0 <= k < rest.len() && is_below(#[trigger] rest[k], world.real_dir) && components(
                spelled_in(top, world.real_dir, rest[k]),
            ) == components(tree.entries[x].path@);
        assert(steps[k + 1] == rest[k]);
    }
}

/// An entry on the trail of another is what its links come to.
#[verifier::spinoff_prover]
#[verifier::rlimit(60)]
proof fn lemma_trail_is_way(
    world: ScanWorld,
    tree: FwTree,
    top: Seq<char>,
    gone: Set<int>,
    path: Seq<char>,
    i: int,
    x: int,
    hops: nat,
)
    requires
        is_tree(tree, top),
        shows_tree(world, tree, top, gone),
        names_entry(tree, path, i),
        !gone.contains(i),
        0 <= x < tree.entries.len(),
        !gone.contains(x),
        is_on_trail(
            trail(world.places, path, hops),
            top,
            world.real_dir,
            components(tree.entries[x].path@),
        ),
    ensures
        comes_to(tree, gone, i, x, hops),
    decreases hops,
{
    let steps = trail(world.places, path, hops);
    let parts = components(tree.entries[x].path@);
    let k = choose|k: int|
        0 <= k < steps.len() && is_below(#[trigger] steps[k], world.real_dir) && components(
            spelled_in(top, world.real_dir, steps[k]),
        ) == parts;
    lemma_shows_entry(world, tree, top, gone, i, path);
    let place = (world.places)(path)->Some_0;
    assert(steps[0] == place.path);
    if k > 0 {
        let target = place.target->Some_0;
        let (spelled, traced) = (
            link_destination(path, target),
            target_path(place.path, target),
        );
        let rest = trail(world.places, traced, (hops - 1) as nat);
        assert(steps == seq![place.path] + rest);
        assert(rest[k - 1] == steps[k]);
        assert(stands_at(world, tree, top, rest[k - 1], x));
        if let Lead::Inside(j) = (tree.lead)(i) {
            assert(rest == trail(world.places, spelled, (hops - 1) as nat));
            lemma_shows_entry(world, tree, top, gone, j, spelled);
            assert(is_on_trail(rest, top, world.real_dir, parts));
            if gone.contains(j) {
                assert(rest.len() == 1);
                assert(stands_at(world, tree, top, rest[0], j));
                assert(j == x);
            } else {
                lemma_trail_is_way(world, tree, top, gone, spelled, j, x, (hops - 1) as nat);
            }
        } else {
            assert(stays_away(world, tree, top, traced));
        }
    } else {
        assert(i == x);
    }
}

/// An entry on the chain of links of another is what its links come to.
#[verifier::spinoff_prover]
#[verifier::rlimit(60)]
proof fn lemma_chain_is_way(
    world: ScanWorld,
    tree: FwTree,
    top: Seq<char>,
    gone: Set<int>,
    path: Seq<char>,
    i: int,
    x: int,
    hops: nat,
)
    requires
        is_tree(tree, top),
        shows_tree(world, tree, top, gone),
        names_entry(tree, path, i),
        !gone.contains(i),
        0 <= x < tree.entries.len(),
        all_components(link_chain(world.links, path, top, hops)).contains(
            components(tree.entries[x].path@),
        ),
    ensures
        comes_to(tree, gone, i, x, hops + 1),
    decreases hops,
{
    let chain = link_chain(world.links, path, top, hops);
    let parts = components(tree.entries[x].path@);
    let k = choose|k: int| 0 <= k < all_components(chain).len() && all_components(chain)[k] == parts;
    lemma_shows_entry(world, tree, top, gone, i, path);
    let place = (world.places)(path)->Some_0;
    let target = (world.links.target)(path)->Some_0;
    let spelled = link_destination(path, target);
    let rest = link_chain(world.links, spelled, top, (hops - 1) as nat);
    assert(chain == seq![spelled] + rest);
    if let Lead::Inside(j) = (tree.lead)(i) {
        lemma_shows_entry(world, tree, top, gone, j, spelled);
        assert(!gone.contains(j));
        if k == 0 {
            assert(names_entry(tree, spelled, x));
            assert(j == x);
        } else {
            assert(all_components(rest)[k - 1] == all_components(chain)[k]);
            lemma_chain_is_way(world, tree, top, gone, spelled, j, x, (hops - 1) as nat);
        }
        assert(comes_to(tree, gone, j, x, hops));
    }
}

/// Looking at more places, the links come to at least the same.
proof fn lemma_comes_to_more(
    tree: FwTree,
    gone: Set<int>,
    i: int,
    x: int,
    hops: nat,
    enough: nat,
)
    requires
        comes_to(tree, gone, i, x, hops),
        hops <= enough,
    ensures
        comes_to(tree, gone, i, x, enough),
    decreases hops,
{
    if i != x {
        if let Lead::Inside(j) = (tree.lead)(i) {
            lemma_comes_to_more(tree, gone, j, x, (hops - 1) as nat, (enough - 1) as nat);
        }
    }
}

/// A required entry is one that the links of an entry come to that a module
/// asks for.
#[verifier::spinoff_prover]
#[verifier::rlimit(60)]
proof fn lemma_required_is_on_way(
    world: ScanWorld,
    tree: FwTree,
    top: Seq<char>,
    gone: Set<int>,
    modules: Seq<Seq<char>>,
    x: int,
) -> (res: (Seq<char>, Seq<char>, int))
    requires
        is_tree(tree, top),
        shows_tree(world, tree, top, gone),
        0 <= x < tree.entries.len(),
        !gone.contains(x),
        required_firmware(world, modules, top).contains(components(tree.entries[x].path@)),
    ensures
        modules.contains(res.0),
        is_asked_for(world, res.0, top, res.1),
        names_entry(tree, res.1, res.2),
        comes_to(tree, gone, res.2, x, MAX_LINKS as nat),
{
    let parts = components(tree.entries[x].path@);
    let m = choose|m: int|
        0 <= m < modules.len() && needed_by_names(
            world,
            (world.names)(#[trigger] modules[m]),
            top,
            parts,
        );
    let module = modules[m];
    let names = (world.names)(module);
    let n = choose|n: int|
        0 <= n < names.len() && needed_by_files(
            world,
            files_named(world, #[trigger] names[n], top),
            top,
            parts,
        );
    let files = files_named(world, names[n], top);
    let f = choose|f: int|
        0 <= f < files.len() && needed_by_file(world, #[trigger] files[f], top, parts);
    let file = files[f];
    assert(files.contains(file));
    assert(is_asked_for(world, module, top, file));
    let i = lemma_asked_is_entry(world, tree, top, gone, module, file);
    let hops = MAX_LINKS as nat;
    if is_on_trail(trail(world.places, file, hops), top, world.real_dir, parts) {
        lemma_trail_is_way(world, tree, top, gone, file, i, x, hops);
    } else {
        let chain = resolve_symlinks(world.links, file, top);
        let rest = link_chain(world.links, file, top, MAX_HOPS as nat);
        let k = choose|k: int|
            0 <= k < all_components(chain).len() && all_components(chain)[k] == parts;
        assert(chain == seq![file] + rest);
        if k == 0 {
            assert(i == x);
        } else {
            assert(all_components(rest)[k - 1] == parts);
            lemma_chain_is_way(world, tree, top, gone, file, i, x, MAX_HOPS as nat);
            lemma_comes_to_more(tree, gone, i, x, MAX_HOPS as nat + 1, hops);
        }
    }
    (module, file, i)
}

/// What the links of an entry come to is required where a module asks for the
/// entry.
proof fn lemma_way_is_required(
    world: ScanWorld,
    tree: FwTree,
    top: Seq<char>,
    gone: Set<int>,
    modules: Seq<Seq<char>>,
    module: Seq<char>,
    file: Seq<char>,
    i: int,
    x: int,
)
    requires
        is_tree(tree, top),
        shows_tree(world, tree, top, gone),
        modules.contains(module),
        is_asked_for(world, module, top, file),
        names_entry(tree, file, i),
        comes_to(tree, gone, i, x, MAX_LINKS as nat),
    ensures
        required_firmware(world, modules, top).contains(components(tree.entries[x].path@)),
{
    let hops = MAX_LINKS as nat;
    let steps = trail(world.places, file, hops);
    lemma_trail_holds_way(world, tree, top, gone, file, i, x, hops);
    let k = choose|k: int|
        0 <= k < steps.len() && is_below(#[trigger] steps[k], world.real_dir) && components(
            spelled_in(top, world.real_dir, steps[k]),
        ) == components(tree.entries[x].path@);
    law_files_are_required_where_they_stand(world, modules, top, module, file);
    assert(is_below(trail(world.places, file, hops)[k], world.real_dir));
}

pub proof fn lemma_picked(paths: Seq<Seq<char>>, flags: Seq<bool>, path: Seq<char>)
    requires
        paths.len() == flags.len(),
    ensures
        picked(paths, flags).contains(path) <==> exists|v: int|
            0 <= v < paths.len() && #[trigger] flags[v] && paths[v] == path,
    decreases paths.len(),
{
    if paths.len() > 0 {
        let (fewer, shorter) = (paths.drop_last(), flags.drop_last());
        lemma_picked(fewer, shorter, path);
        let (before, after) = (picked(fewer, shorter), picked(paths, flags));
        if after.contains(path) {
            let k = choose|k: int| 0 <= k < after.len() && after[k] == path;
            if k < before.len() {
                assert(before[k] == path);
                assert(before.contains(path));
                let v = choose|v: int|
                    0 <= v < fewer.len() && #[trigger] shorter[v] && fewer[v] == path;
                assert(flags[v] && paths[v] == path);
            } else {
                assert(flags[paths.len() - 1] && paths[paths.len() - 1] == path);
            }
        }
        if exists|v: int| 0 <= v < paths.len() && #[trigger] flags[v] && paths[v] == path {
            let v = choose|v: int| 0 <= v < paths.len() && #[trigger] flags[v] && paths[v] == path;
            if v < fewer.len() {
                assert(shorter[v] && fewer[v] == path);
                let k = choose|k: int| 0 <= k < before.len() && before[k] == path;
                assert(after[k] == path);
            } else {
                assert(after[before.len() as int] == path);
            }
        }
    } else {
        assert(!picked(paths, flags).contains(path));
    }
}

pub proof fn lemma_all_matches(found: Seq<Seq<Seq<char>>>, path: Seq<char>)
    ensures
        all_matches(found).contains(path) <==> exists|v: int|
            0 <= v < found.len() && (#[trigger] found[v]).contains(path),
    decreases found.len(),
{
    if found.len() > 0 {
        let front = found.drop_last();
        lemma_all_matches(front, path);
        let (a, b) = (all_matches(front), found.last());
        let whole = all_matches(found);
        if whole.contains(path) {
            let k = choose|k: int| 0 <= k < whole.len() && whole[k] == path;
            if k < a.len() {
                assert(a[k] == path);
                assert(a.contains(path));
                let v = choose|v: int| 0 <= v < front.len() && (#[trigger] front[v]).contains(path);
                assert(found[v].contains(path));
            } else {
                assert(b[k - a.len()] == path);
                assert(found[found.len() - 1].contains(path));
            }
        }
        if exists|v: int| 0 <= v < found.len() && (#[trigger] found[v]).contains(path) {
            let v = choose|v: int| 0 <= v < found.len() && (#[trigger] found[v]).contains(path);
            if v < front.len() {
                assert(front[v].contains(path));
                let k = choose|k: int| 0 <= k < a.len() && a[k] == path;
                assert(whole[k] == path);
            } else {
                let k = choose|k: int| 0 <= k < b.len() && b[k] == path;
                assert(whole[a.len() + k] == path);
            }
        }
    } else {
        assert(!all_matches(found).contains(path));
    }
}

/// A list without repetitions holds paths of the list only, and each path of
/// the list in some spelling.
pub proof fn lemma_distinct(paths: Seq<Seq<char>>, path: Seq<char>)
    ensures
        distinct_paths(paths, Set::empty()).contains(path) ==> paths.contains(path),
        paths.contains(path) ==> exists|same: Seq<char>| #[trigger]
            distinct_paths(paths, Set::empty()).contains(same) && components(same) == components(
                path,
            ),
    decreases paths.len(),
{
    let none = Set::<Seq<Seq<char>>>::empty();
    if paths.len() > 0 {
        let fewer = paths.drop_last();
        let (before, after) = (distinct_paths(fewer, none), distinct_paths(paths, none));
        lemma_distinct(fewer, path);
        if after.contains(path) {
            let k = choose|k: int| 0 <= k < after.len() && after[k] == path;
            if k < before.len() {
                assert(before[k] == path);
                assert(before.contains(path));
                let m = choose|m: int| 0 <= m < fewer.len() && fewer[m] == path;
                assert(paths[m] == path);
            } else {
                assert(paths[paths.len() - 1] == path);
            }
        }
        if paths.contains(path) {
            let m = choose|m: int| 0 <= m < paths.len() && paths[m] == path;
            if m < fewer.len() {
                assert(fewer[m] == path);
                assert(fewer.contains(path));
                let same = choose|same: Seq<char>| #[trigger]
                    before.contains(same) && components(same) == components(path);
                let k = choose|k: int| 0 <= k < before.len() && before[k] == same;
                assert(after[k] == same);
                assert(after.contains(same));
            } else if all_components(fewer).contains(components(path)) {
                let m = choose|m: int|
                    0 <= m < all_components(fewer).len() && all_components(fewer)[m] == components(
                        path,
                    );
                lemma_distinct(fewer, fewer[m]);
                assert(fewer.contains(fewer[m]));
                let same = choose|same: Seq<char>| #[trigger]
                    before.contains(same) && components(same) == components(fewer[m]);
                let k = choose|k: int| 0 <= k < before.len() && before[k] == same;
                assert(after[k] == same);
                assert(after.contains(same));
            } else {
                assert(after[before.len() as int] == path);
                assert(after.contains(path));
            }
        }
    } else {
        assert(!distinct_paths(paths, none).contains(path));
    }
}

/// What a module asked for it asks for again, in some spelling, where it still
/// leads somewhere.
#[verifier::spinoff_prover]
#[verifier::rlimit(60)]
proof fn lemma_still_asked_for(
    world: ScanWorld,
    later: ScanWorld,
    tree: FwTree,
    top: Seq<char>,
    gone: Set<int>,
    module: Seq<char>,
    file: Seq<char>,
    i: int,
) -> (same: Seq<char>)
    requires
        is_tree(tree, top),
        shows_tree(later, tree, top, gone),
        asks_alike(world, later, tree, gone),
        is_asked_for(world, module, top, file),
        names_entry(tree, file, i),
        leads(tree, gone, i),
    ensures
        is_asked_for(later, module, top, same),
        names_entry(tree, same, i),
{
    let names = (world.names)(module);
    let n = choose|n: int|
        0 <= n < names.len() && files_named(world, #[trigger] names[n], top).contains(file);
    let name = names[n];
    let paths = variants(joined(top, name));
    lemma_shows_entry(later, tree, top, gone, i, file);
    if name.contains('*') {
        let (found, again) = (paths.map_values(world.matched), paths.map_values(later.matched));
        lemma_distinct(all_matches(found), file);
        lemma_all_matches(found, file);
        let v = choose|v: int| 0 <= v < found.len() && (#[trigger] found[v]).contains(file);
        assert((world.matched)(paths[v]).contains(file));
        assert(again[v].contains(file));
        lemma_all_matches(again, file);
        lemma_distinct(all_matches(again), file);
        let same = choose|same: Seq<char>| #[trigger]
            distinct_paths(all_matches(again), Set::empty()).contains(same) && components(same)
                == components(file);
        assert(files_named(later, (later.names)(module)[n], top).contains(same));
        same
    } else {
        let (flags, again) = (
            paths.map_values(world.links.exists),
            paths.map_values(later.links.exists),
        );
        lemma_picked(paths, flags, file);
        lemma_picked(paths, again, file);
        let v = choose|v: int| 0 <= v < paths.len() && #[trigger] flags[v] && paths[v] == file;
        assert(again[v] && paths[v] == file);
        assert(files_named(later, (later.names)(module)[n], top).contains(file));
        file
    }
}

/// Whether what a module asks for leads where its links lead, which is so
/// unless a wildcard finds a link that leads on through more links than the
/// system follows.
pub open spec fn asked_links_lead(
    world: ScanWorld,
    tree: FwTree,
    top: Seq<char>,
    modules: Seq<Seq<char>>,
) -> bool {
    forall|module: Seq<char>, file: Seq<char>, f: int|
        modules.contains(module) && #[trigger] is_asked_for(world, module, top, file)
            && #[trigger] names_entry(tree, file, f) && !(end_of(
            tree,
            Set::empty(),
            f,
            2 * MAX_LINKS as nat,
        ) is Nowhere) ==> leads(tree, Set::empty(), f)
}

/// What a module asks for leads to a file where its links come to one.
proof fn lemma_asked_file(
    world: ScanWorld,
    tree: FwTree,
    top: Seq<char>,
    modules: Seq<Seq<char>>,
    module: Seq<char>,
    file: Seq<char>,
    f: int,
    i: int,
)
    requires
        asked_links_lead(world, tree, top, modules),
        modules.contains(module),
        is_asked_for(world, module, top, file),
        names_entry(tree, file, f),
        comes_to(tree, Set::empty(), f, i, MAX_LINKS as nat),
        is_file_now(tree, Set::empty(), i),
    ensures
        is_file_now(tree, Set::empty(), f),
{
    let (none, hops) = (Set::<int>::empty(), MAX_LINKS as nat);
    lemma_end_beyond(tree, none, f, i, hops, hops);
    assert(hops + hops == 2 * MAX_LINKS as nat);
    assert(!(end_of(tree, none, f, 2 * MAX_LINKS as nat) is Nowhere));
    lemma_more_hops(tree, none, f, hops, 2 * MAX_LINKS as nat);
}

/// The way to a file that a module asks for outlasts the cleanup.
proof fn lemma_asked_way_survives(
    world: ScanWorld,
    tree: FwTree,
    order: Seq<usize>,
    top: Seq<char>,
    modules: Seq<Seq<char>>,
    required: Set<Seq<Seq<char>>>,
    module: Seq<char>,
    file: Seq<char>,
    f: int,
)
    requires
        is_tree(tree, top),
        is_check_order(tree.entries, order),
        shows_tree(world, tree, top, Set::empty()),
        is_seen_from(required_firmware(world, modules, top), required, top),
        modules.contains(module),
        is_asked_for(world, module, top, file),
        names_entry(tree, file, f),
        is_file_now(tree, Set::empty(), f),
    ensures
        is_way_clear(tree, pass_states(tree, order, top, required).2, f),
{
    let (none, hops) = (Set::<int>::empty(), MAX_LINKS as nat);
    let entries = tree.entries;
    assert forall|x: int| #[trigger] comes_to(tree, none, f, x, hops) implies !is_unused(
        entries[x].path@,
        true,
        top,
        required,
    ) by {
        lemma_stays_in_range(tree, top, none, f, x, hops);
        lemma_way_is_required(world, tree, top, none, modules, module, file, f, x);
        assert(is_below(entries[x].path@, top));
    }
    lemma_required_way_survives(tree, order, top, required, f);
}

/// A file that a cleanup left was required.
proof fn lemma_left_was_required(
    world: ScanWorld,
    tree: FwTree,
    order: Seq<usize>,
    top: Seq<char>,
    modules: Seq<Seq<char>>,
    required: Set<Seq<Seq<char>>>,
    i: int,
)
    requires
        is_tree(tree, top),
        is_check_order(tree.entries, order),
        is_seen_from(required_firmware(world, modules, top), required, top),
        0 <= i < tree.entries.len(),
        is_file_now(tree, pass_states(tree, order, top, required).2, i),
    ensures
        is_file_now(tree, Set::empty(), i),
        required_firmware(world, modules, top).contains(components(tree.entries[i].path@)),
{
    let (none, hops) = (Set::<int>::empty(), MAX_LINKS as nat);
    let (files, links, dirs) = pass_states(tree, order, top, required);
    lemma_first_passes(tree, order, top, required);
    lemma_fewer_entries(tree, files, dirs, i, hops);
    lemma_fewer_entries(tree, none, dirs, i, hops);
    law_only_required_files_are_left(tree, top, required, none, i);
    assert(is_below(tree.entries[i].path@, top));
}

/// A file that a cleanup left is required again.
#[verifier::spinoff_prover]
#[verifier::rlimit(60)]
proof fn lemma_left_is_required_again(
    world: ScanWorld,
    later: ScanWorld,
    tree: FwTree,
    order: Seq<usize>,
    top: Seq<char>,
    modules: Seq<Seq<char>>,
    required: Set<Seq<Seq<char>>>,
    i: int,
)
    requires
        is_tree(tree, top),
        is_check_order(tree.entries, order),
        asked_links_lead(world, tree, top, modules),
        shows_tree(world, tree, top, Set::empty()),
        is_seen_from(required_firmware(world, modules, top), required, top),
        shows_tree(later, tree, top, pass_states(tree, order, top, required).2),
        asks_alike(world, later, tree, pass_states(tree, order, top, required).2),
        0 <= i < tree.entries.len(),
        is_file_now(tree, pass_states(tree, order, top, required).2, i),
    ensures
        required_firmware(later, modules, top).contains(components(tree.entries[i].path@)),
{
    let none = Set::<int>::empty();
    let dirs = pass_states(tree, order, top, required).2;
    lemma_left_was_required(world, tree, order, top, modules, required, i);
    let (module, file, f) = lemma_required_is_on_way(world, tree, top, none, modules, i);
    lemma_asked_file(world, tree, top, modules, module, file, f, i);
    lemma_asked_way_survives(world, tree, order, top, modules, required, module, file, f);
    lemma_clear_way(tree, dirs, f);
    let same = lemma_still_asked_for(world, later, tree, top, dirs, module, file, f);
    lemma_way_is_required(later, tree, top, dirs, modules, module, same, f, i);
}

/// A second cleanup of a firmware directory removes nothing. The modules ask
/// for the same as before, `later` is the system as the first cleanup left it,
/// what is asked for is found under the paths of entries and leads where its
/// links do, and no link leads to a directory.
pub proof fn law_second_cleanup_removes_nothing(
    world: ScanWorld,
    later: ScanWorld,
    tree: FwTree,
    order: Seq<usize>,
    top: Seq<char>,
    modules: Seq<Seq<char>>,
    required: Set<Seq<Seq<char>>>,
    again: Set<Seq<Seq<char>>>,
)
    requires
        is_tree(tree, top),
        is_check_order(tree.entries, order),
        no_link_to_directory(tree),
        asked_links_lead(world, tree, top, modules),
        shows_tree(world, tree, top, Set::empty()),
        is_seen_from(required_firmware(world, modules, top), required, top),
        shows_tree(
            later,
            tree,
            top,
            after_cleanup(tree, order, top, required, Set::empty()),
        ),
        asks_alike(
            world,
            later,
            tree,
            after_cleanup(tree, order, top, required, Set::empty()),
        ),
        is_seen_from(required_firmware(later, modules, top), again, top),
    ensures
        after_cleanup(
            tree,
            order,
            top,
            again,
            after_cleanup(tree, order, top, required, Set::empty()),
        ) == after_cleanup(tree, order, top, required, Set::empty()),
        !scan_fails(world, modules, top) ==> !scan_fails(later, modules, top),
{
    let dirs = pass_states(tree, order, top, required).2;
    let entries = tree.entries;
    lemma_last_pass(tree, order, top, required);
    assert(after_cleanup(tree, order, top, required, Set::empty()) == dirs);
    assert forall|i: int| 0 <= i < entries.len() && is_file_now(tree, dirs, i) implies !is_unused(
        (#[trigger] entries[i]).path@,
        true,
        top,
        again,
    ) by {
        lemma_left_is_required_again(world, later, tree, order, top, modules, required, i);
        assert(is_below(entries[i].path@, top));
    }
    lemma_nothing_more_goes(tree, order, top, required, again);
    if !scan_fails(world, modules, top) {
        lemma_scan_succeeds(world, later, tree, top, dirs, modules);
    }
}

/// The links of an entry can all be looked at.
proof fn lemma_chain_is_seen(
    world: ScanWorld,
    tree: FwTree,
    top: Seq<char>,
    gone: Set<int>,
    path: Seq<char>,
    i: int,
    hops: nat,
)
    requires
        is_tree(tree, top),
        shows_tree(world, tree, top, gone),
        names_entry(tree, path, i),
        !gone.contains(i),
    ensures
        !chain_fails(world, path, top, hops),
    decreases hops,
{
    lemma_shows_entry(world, tree, top, gone, i, path);
    if hops > 0 && chain_fails(world, path, top, hops) {
        let place = (world.places)(path)->Some_0;
        let target = (world.links.target)(path)->Some_0;
        let spelled = link_destination(path, target);
        if let Lead::Inside(j) = (tree.lead)(i) {
            lemma_shows_entry(world, tree, top, gone, j, spelled);
            lemma_chain_is_seen(world, tree, top, gone, spelled, j, (hops - 1) as nat);
        }
    }
}

proof fn lemma_scan_succeeds(
    world: ScanWorld,
    later: ScanWorld,
    tree: FwTree,
    top: Seq<char>,
    gone: Set<int>,
    modules: Seq<Seq<char>>,
)
    requires
        is_tree(tree, top),
        shows_tree(later, tree, top, gone),
        asks_alike(world, later, tree, gone),
        !scan_fails(world, modules, top),
    ensures
        !scan_fails(later, modules, top),
{
    if scan_fails(later, modules, top) {
        let m = choose|m: int|
            0 <= m < modules.len() && module_fails(later, #[trigger] modules[m], top);
        let module = modules[m];
        assert(!module_fails(world, module, top));
        let names = (later.names)(module);
        let n = choose|n: int|
            0 <= n < names.len() && files_fail(
                later,
                files_named(later, #[trigger] names[n], top),
                top,
            );
        let files = files_named(later, names[n], top);
        let f = choose|f: int|
            0 <= f < files.len() && chain_fails(
                later,
                #[trigger] files[f],
                top,
                MAX_HOPS as nat,
            );
        assert(files.contains(files[f]));
        assert(is_asked_for(later, module, top, files[f]));
        let i = lemma_asked_is_entry(later, tree, top, gone, module, files[f]);
        lemma_chain_is_seen(later, tree, top, gone, files[f], i, MAX_HOPS as nat);
    }
}

} // verus!
