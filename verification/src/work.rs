//! Sharing work out among threads.
use crate::text::texts;
use vstd::prelude::*;

verus! {

/// How many threads work: one where parallelism is switched off or where the
/// system does not say how many can, else as many as it says.
pub fn worker_count(no_parallel: bool, available: Option<usize>) -> (n: usize)
    requires
        available matches Some(count) ==> count > 0,
    ensures
        n > 0,
        n == if no_parallel {
            1
        } else {
            match available {
                Some(count) => count,
                None => 1,
            }
        },
{
    if no_parallel {
        1
    } else {
        match available {
            Some(count) => count,
            None => 1,
        }
    }
}

/// How many items one worker gets: as many as it takes to share all items
/// out, and at least one.
pub open spec fn share(items: nat, workers: nat) -> nat {
    if items == 0 {
        1
    } else if items % workers == 0 {
        items / workers
    } else {
        items / workers + 1
    }
}

/// How many items one worker gets.
pub fn chunk_size(items: usize, workers: usize) -> (size: usize)
    requires
        workers > 0,
    ensures
        size == share(items as nat, workers as nat),
        size > 0,
        size * workers >= items,
{
    if items == 0 {
        return 1;
    }
    let whole: usize = items / workers;
    proof {
        vstd::arithmetic::div_mod::lemma_fundamental_div_mod(items as int, workers as int);
        vstd::arithmetic::mul::lemma_mul_is_commutative(workers as int, whole as int);
        vstd::arithmetic::div_mod::lemma_mod_bound(items as int, workers as int);
        if whole == 0 {
            vstd::arithmetic::mul::lemma_mul_basics(workers as int);
        }
        vstd::arithmetic::mul::lemma_mul_is_distributive_add_other_way(
            workers as int,
            whole as int,
            1,
        );
        if workers > 1 {
            vstd::arithmetic::div_mod::lemma_div_decreases(items as int, workers as int);
        }
    }
    if items % workers == 0 {
        whole
    } else {
        whole + 1
    }
}

/// The items in chunks of `size`, the last of which may be smaller.
pub open spec fn chunked<A>(items: Seq<A>, size: nat) -> Seq<Seq<A>>
    decreases items.len(),
{
    if items.len() == 0 {
        Seq::empty()
    } else if items.len() <= size || size == 0 {
        seq![items]
    } else {
        seq![items.take(size as int)] + chunked(items.skip(size as int), size)
    }
}

/// The characters of each string of several chunks.
pub open spec fn chunk_texts(chunks: Seq<Vec<String>>) -> Seq<Seq<Seq<char>>> {
    chunks.map_values(|chunk: Vec<String>| texts(chunk@))
}

/// Shares the items out among the workers, in order.
pub fn split_work(items: &Vec<String>, workers: usize) -> (chunks: Vec<Vec<String>>)
    requires
        workers > 0,
    ensures
        chunk_texts(chunks@) == chunked(texts(items@), share(items@.len(), workers as nat)),
{
    let size: usize = chunk_size(items.len(), workers);
    let ghost all = texts(items@);
    let mut chunks: Vec<Vec<String>> = Vec::new();
    let mut from: usize = 0;
    proof {
        assert(all.skip(0) =~= all);
        assert(chunk_texts(chunks@) + chunked(all, size as nat) =~= chunked(all, size as nat));
    }
    while from < items.len()
        invariant
            from <= items@.len(),
            size > 0,
            all == texts(items@),
            chunk_texts(chunks@) + chunked(all.skip(from as int), size as nat) == chunked(
                all,
                size as nat,
            ),
        decreases items@.len() - from,
    {
        let count: usize = items.len() - from;
        let to: usize = if count <= size {
            items.len()
        } else {
            from + size
        };
        let mut chunk: Vec<String> = Vec::new();
        let mut i: usize = from;
        while i < to
            invariant
                from <= i <= to <= items@.len(),
                all == texts(items@),
                texts(chunk@) == all.subrange(from as int, i as int),
            decreases to - i,
        {
            let item = items[i].clone();
            proof {
                assert(texts(chunk@.push(item)) =~= texts(chunk@).push(item@));
                assert(all.subrange(from as int, i + 1) =~= all.subrange(
                    from as int,
                    i as int,
                ).push(item@));
            }
            chunk.push(item);
            i += 1;
        }
        proof {
            let rest = all.skip(from as int);
            let before = chunk_texts(chunks@);
            assert(chunk_texts(chunks@.push(chunk)) =~= before.push(texts(chunk@)));
            if count <= size {
                assert(texts(chunk@) =~= rest);
                assert(all.skip(to as int) =~= Seq::<Seq<char>>::empty());
                assert(before.push(texts(chunk@)) + chunked(all.skip(to as int), size as nat)
                    =~= before + seq![rest]);
            } else {
                assert(texts(chunk@) =~= rest.take(size as int));
                assert(rest.skip(size as int) =~= all.skip(to as int));
                let tail = chunked(all.skip(to as int), size as nat);
                assert(before.push(texts(chunk@)) + tail =~= before + (seq![rest.take(size as int)]
                    + tail));
            }
        }
        chunks.push(chunk);
        from = to;
    }
    proof {
        assert(all.skip(from as int) =~= Seq::<Seq<char>>::empty());
        assert(chunk_texts(chunks@) =~= chunked(all, size as nat));
    }
    chunks
}

/// All items of the chunks, in order.
pub open spec fn unchunked<A>(chunks: Seq<Seq<A>>) -> Seq<A>
    decreases chunks.len(),
{
    if chunks.len() == 0 {
        Seq::empty()
    } else {
        unchunked(chunks.drop_last()) + chunks.last()
    }
}

proof fn lemma_unchunked_front<A>(first: Seq<A>, rest: Seq<Seq<A>>)
    ensures
        unchunked(seq![first] + rest) == first + unchunked(rest),
    decreases rest.len(),
{
    let whole = seq![first] + rest;
    if rest.len() == 0 {
        reveal_with_fuel(unchunked, 2);
        assert(whole.drop_last() =~= Seq::<Seq<A>>::empty());
        assert(whole.last() == first);
        assert(unchunked(whole) =~= first + unchunked(rest));
    } else {
        lemma_unchunked_front(first, rest.drop_last());
        assert(whole.drop_last() =~= seq![first] + rest.drop_last());
        assert(whole.last() == rest.last());
        assert(unchunked(whole) =~= first + unchunked(rest));
    }
}

/// Sharing work out loses nothing and changes no order: the chunks together
/// are the items.
pub proof fn law_chunks_hold_all_items<A>(items: Seq<A>, size: nat)
    ensures
        unchunked(chunked(items, size)) == items,
    decreases items.len(),
{
    if items.len() == 0 {
        assert(items =~= Seq::<A>::empty());
    } else if items.len() <= size || size == 0 {
        lemma_unchunked_front(items, Seq::<Seq<A>>::empty());
        assert(seq![items] + Seq::<Seq<A>>::empty() =~= seq![items]);
        assert(items + Seq::<A>::empty() =~= items);
    } else {
        let rest = items.skip(size as int);
        law_chunks_hold_all_items(rest, size);
        lemma_unchunked_front(items.take(size as int), chunked(rest, size));
        assert(items.take(size as int) + rest =~= items);
    }
}

proof fn lemma_chunk_count<A>(items: Seq<A>, size: nat, workers: nat)
    requires
        size > 0,
        items.len() <= size * workers,
    ensures
        chunked(items, size).len() <= workers,
    decreases workers,
{
    if workers == 0 {
        vstd::arithmetic::mul::lemma_mul_basics(size as int);
    } else if items.len() > size {
        let rest = items.skip(size as int);
        vstd::arithmetic::mul::lemma_mul_is_distributive_sub(size as int, workers as int, 1);
        lemma_chunk_count(rest, size, (workers - 1) as nat);
    }
}

/// No more chunks are made than there are workers, and none is empty.
pub proof fn law_chunks_fit_workers<A>(items: Seq<A>, workers: nat)
    requires
        workers > 0,
    ensures
        chunked(items, share(items.len(), workers)).len() <= workers,
        forall|i: int|
            0 <= i < chunked(items, share(items.len(), workers)).len() ==> (#[trigger] chunked(
                items,
                share(items.len(), workers),
            )[i]).len() > 0,
{
    let n = items.len() as int;
    let w = workers as int;
    let size = share(items.len(), workers);
    vstd::arithmetic::div_mod::lemma_fundamental_div_mod(n, w);
    vstd::arithmetic::div_mod::lemma_mod_bound(n, w);
    vstd::arithmetic::mul::lemma_mul_is_commutative(w, n / w);
    vstd::arithmetic::mul::lemma_mul_is_distributive_add_other_way(w, n / w, 1);
    vstd::arithmetic::mul::lemma_mul_basics(w);
    vstd::arithmetic::div_mod::lemma_div_pos_is_pos(n, w);
    if n > 0 && size == 0 {
        assert(n / w == 0);
    }
    lemma_chunk_count(items, size, workers);
    lemma_chunks_not_empty(items, size);
}

proof fn lemma_chunks_not_empty<A>(items: Seq<A>, size: nat)
    requires
        size > 0,
    ensures
        forall|i: int|
            0 <= i < chunked(items, size).len() ==> (#[trigger] chunked(items, size)[i]).len() > 0,
    decreases items.len(),
{
    if items.len() > size {
        let rest = items.skip(size as int);
        lemma_chunks_not_empty(rest, size);
        assert forall|i: int| 0 <= i < chunked(items, size).len() implies (#[trigger] chunked(
            items,
            size,
        )[i]).len() > 0 by {
            if i > 0 {
                assert(chunked(items, size)[i] == chunked(rest, size)[i - 1]);
            }
        }
    }
}

proof fn lemma_full_chunks<A>(items: Seq<A>, size: nat)
    requires
        size > 0,
    ensures
        forall|i: int|
            0 <= i < chunked(items, size).len() - 1 ==> (#[trigger] chunked(items, size)[i]).len()
                == size,
    decreases items.len(),
{
    if items.len() > size {
        let rest = items.skip(size as int);
        lemma_full_chunks(rest, size);
        assert forall|i: int| 0 <= i < chunked(items, size).len() - 1 implies (
        #[trigger] chunked(items, size)[i]).len() == size by {
            if i > 0 {
                assert(chunked(items, size)[i] == chunked(rest, size)[i - 1]);
            }
        }
    }
}

/// One worker gets no more items than needed: with one less for each worker,
/// some would be left.
pub proof fn law_shares_are_no_larger_than_needed(items: usize, workers: usize, size: usize)
    requires
        workers > 0,
        call_ensures(chunk_size, (items, workers), size),
    ensures
        items == 0 ==> size == 1,
        items > 0 ==> (size - 1) * workers < items <= size * workers,
{
    let (n, w) = (items as int, workers as int);
    if n > 0 {
        vstd::arithmetic::div_mod::lemma_fundamental_div_mod(n, w);
        vstd::arithmetic::div_mod::lemma_mod_bound(n, w);
        vstd::arithmetic::mul::lemma_mul_is_commutative(w, n / w);
        vstd::arithmetic::mul::lemma_mul_is_distributive_sub_other_way(w, n / w, 1);
        vstd::arithmetic::mul::lemma_mul_is_distributive_add_other_way(w, n / w, 1);
        vstd::arithmetic::mul::lemma_mul_basics(w);
    }
}

/// Work is shared out whole and in order among no more workers than there are:
/// no share is empty, and all but the last are equally large.
pub proof fn law_work_is_shared_out(
    items: &Vec<String>,
    workers: usize,
    chunks: Vec<Vec<String>>,
)
    requires
        workers > 0,
        call_ensures(split_work, (items, workers), chunks),
    ensures
        unchunked(chunk_texts(chunks@)) == texts(items@),
        chunks@.len() <= workers,
        forall|i: int| 0 <= i < chunks@.len() ==> (#[trigger] chunks@[i])@.len() > 0,
        forall|i: int, j: int|
            0 <= i < j < chunks@.len() ==> (#[trigger] chunks@[j])@.len() <= (
            #[trigger] chunks@[i])@.len(),
        forall|i: int, j: int|
            0 <= i < j < chunks@.len() - 1 ==> (#[trigger] chunks@[j])@.len() == (
            #[trigger] chunks@[i])@.len(),
{
    let all = texts(items@);
    let size = share(items@.len(), workers as nat);
    let parts = chunk_texts(chunks@);
    assert(all.len() == items@.len());
    law_chunks_hold_all_items(all, size);
    law_chunks_fit_workers(all, workers as nat);
    if chunks@.len() > 0 {
        if size == 0 {
            law_chunks_fit_workers(all, workers as nat);
        } else {
            lemma_full_chunks(all, size);
            lemma_last_chunk(all, size);
        }
    }
    assert(parts.len() == chunks@.len());
    assert forall|i: int| 0 <= i < chunks@.len() implies (#[trigger] chunks@[i])@.len()
        == parts[i].len() by {
        assert(parts[i] == texts(chunks@[i]@));
    }
}

proof fn lemma_last_chunk<A>(items: Seq<A>, size: nat)
    requires
        size > 0,
        items.len() > 0,
    ensures
        chunked(items, size).len() > 0,
        chunked(items, size).last().len() <= size,
    decreases items.len(),
{
    if items.len() > size {
        let rest = items.skip(size as int);
        lemma_last_chunk(rest, size);
        let parts = chunked(rest, size);
        assert((seq![items.take(size as int)] + parts).last() == parts.last());
    }
}

/// Without parallelism one thread works, and with it as many as the system
/// offers, or one where it offers none.
pub proof fn law_workers_are_as_many_as_offered(
    no_parallel: bool,
    available: Option<usize>,
    n: usize,
)
    requires
        available matches Some(count) ==> count > 0,
        call_ensures(worker_count, (no_parallel, available), n),
    ensures
        no_parallel ==> n == 1,
        !no_parallel && available is Some ==> Some(n) == available,
        available is None ==> n == 1,
{
}

} // verus!
