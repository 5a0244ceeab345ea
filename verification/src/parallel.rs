//! Parallel work: what the library takes from `rayon`, and mapping over chunks.
use vstd::arithmetic::div_mod::*;
use vstd::arithmetic::mul::*;
use vstd::prelude::*;

verus! {

/// `rayon::join` runs both closures, possibly in parallel, and returns when
/// both are done: the pair of their results. It panics only where one of them
/// does, or where the thread pool cannot be started.
pub assume_specification<A, B, RA, RB>[ rayon::join::<A, B, RA, RB> ](
    oper_a: A,
    oper_b: B,
) -> (r: (RA, RB)) where A: FnOnce() -> RA + Send, B: FnOnce() -> RB + Send, RA: Send, RB: Send
    requires
        oper_a.requires(()),
        oper_b.requires(()),
    ensures
        oper_a.ensures((), r.0),
        oper_b.ensures((), r.1),
;

/// `rayon::current_num_threads` is the size of the thread pool. It depends on
/// the machine and on how the pool was set up, so nothing is claimed of it.
pub assume_specification[ rayon::current_num_threads ]() -> (n: usize)
;

/// Where the chunk with index `i` begins, in chunks of `chunk` elements of a
/// slice of length `len`; the end of the slice where there is no such chunk.
pub open spec fn chunk_start(len: nat, chunk: nat, i: nat) -> nat {
    if i * chunk <= len {
        i * chunk
    } else {
        len
    }
}

/// The chunk with index `i`: the next `chunk` elements, or what is left.
pub open spec fn chunk_at<T>(s: Seq<T>, chunk: nat, i: nat) -> Seq<T> {
    s.subrange(
        chunk_start(s.len(), chunk, i) as int,
        chunk_start(s.len(), chunk, i + 1) as int,
    )
}

/// There is a chunk with index `i`, and `r` is what `f` returns for it.
pub open spec fn maps_chunk<T, R, F: Fn(&[T]) -> R>(
    s: Seq<T>,
    chunk: nat,
    f: F,
    i: nat,
    r: R,
) -> bool {
    &&& i * chunk < s.len()
    &&& exists|c: &[T]| c@ == chunk_at(s, chunk, i) && #[trigger] f.ensures((c,), r)
}

/// `parts` are the results of `f` on all chunks, in the order of the chunks;
/// none of the chunks is empty.
pub open spec fn maps_chunks<T, R, F: Fn(&[T]) -> R>(
    s: Seq<T>,
    chunk: nat,
    f: F,
    parts: Seq<R>,
) -> bool {
    &&& forall|i: int|
        0 <= i < parts.len() ==> maps_chunk(s, chunk, f, i as nat, #[trigger] parts[i])
    &&& parts.len() * chunk >= s.len()
}

/// A slice cut at a multiple of the chunk size has the chunks of its halves,
/// the left ones first.
proof fn lemma_maps_chunks<T, R, F: Fn(&[T]) -> R>(
    s: Seq<T>,
    chunk: nat,
    f: F,
    half: nat,
    a: Seq<R>,
    b: Seq<R>,
)
    requires
        chunk > 0,
        half * chunk <= s.len(),
        maps_chunks(s.take((half * chunk) as int), chunk, f, a),
        maps_chunks(s.skip((half * chunk) as int), chunk, f, b),
    ensures
        maps_chunks(s, chunk, f, a + b),
{
    let mid = (half * chunk) as int;
    assert(a.len() == half) by {
        if a.len() > half {
            assert(maps_chunk(s.take(mid), chunk, f, half, a[half as int]));
        }
        if a.len() < half {
            lemma_mul_strict_inequality(a.len() as int, half as int, chunk as int);
        }
    }
    let ab = a + b;
    assert forall|i: int| 0 <= i < ab.len() implies maps_chunk(
        s,
        chunk,
        f,
        i as nat,
        #[trigger] ab[i],
    ) by {
        lemma_mul_is_distributive_add_other_way(chunk as int, i, 1);
        if i < half {
            assert(ab[i] == a[i]);
            lemma_mul_inequality(i + 1, half as int, chunk as int);
            assert(chunk_at(s.take(mid), chunk, i as nat) =~= chunk_at(s, chunk, i as nat));
        } else {
            let j = i - half;
            assert(ab[i] == b[j]);
            lemma_mul_is_distributive_add_other_way(chunk as int, half as int, j);
            lemma_mul_is_distributive_add_other_way(chunk as int, j, 1);
            lemma_mul_nonnegative(j, chunk as int);
            assert(chunk_at(s.skip(mid), chunk, j as nat) =~= chunk_at(s, chunk, i as nat));
        }
    }
    lemma_mul_is_distributive_add_other_way(chunk as int, half as int, b.len() as int);
    assert(ab.len() * chunk >= s.len());
}

/// Cuts the slice into chunks of `chunk` elements (the last may be shorter,
/// none is empty), calls `f` once on each, possibly in parallel, and returns
/// the results in the order of the chunks.
pub(crate) fn par_chunks_map<T: Sync, R: Send, F: Fn(&[T]) -> R + Sync + Send>(
    slice: &[T],
    chunk: usize,
    f: F,
) -> (parts: Vec<R>)
    requires
        chunk > 0,
        forall|c: &[T]| #[trigger] f.requires((c,)),
    ensures
        maps_chunks(slice@, chunk as nat, f, parts@),
{
    fork_chunks(slice, chunk, &f)
}

/// The chunks are halved, and the halves forked, until one is left.
fn fork_chunks<T: Sync, R: Send, F: Fn(&[T]) -> R + Sync + Send>(
    slice: &[T],
    chunk: usize,
    f: &F,
) -> (parts: Vec<R>)
    requires
        chunk > 0,
        forall|c: &[T]| #[trigger] (*f).requires((c,)),
    ensures
        maps_chunks(slice@, chunk as nat, *f, parts@),
    decreases slice@.len(),
{
    let n: usize = slice.len();
    let mut parts: Vec<R> = Vec::new();
    if n == 0 {
        return parts;
    }
    if n <= chunk {
        let part = f(slice);
        parts.push(part);
        proof {
            lemma_mul_basics(chunk as int);
            assert(chunk_at(slice@, chunk as nat, 0) =~= slice@);
            assert(maps_chunk(slice@, chunk as nat, *f, 0, part));
        }
        return parts;
    }
    let last: usize = (n - 1) / chunk;
    let half: usize = last - last / 2;
    proof {
        lemma_fundamental_div_mod(n - 1, chunk as int);
        lemma_mul_is_commutative(chunk as int, last as int);
        lemma_div_non_zero(n - 1, chunk as int);
        lemma_mul_inequality(half as int, last as int, chunk as int);
        lemma_mul_inequality(1, half as int, chunk as int);
    }
    let mid: usize = half * chunk;
    let left = vstd::slice::slice_subrange(slice, 0, mid);
    let right = vstd::slice::slice_subrange(slice, mid, n);
    let (mut a, mut b) = rayon::join(
        move || -> (r: Vec<R>)
            requires
                chunk > 0,
                left@.len() < slice@.len(),
                forall|c: &[T]| #[trigger] (*f).requires((c,))
            ensures
                maps_chunks(left@, chunk as nat, *f, r@)
            { fork_chunks(left, chunk, f) },
        move || -> (r: Vec<R>)
            requires
                chunk > 0,
                right@.len() < slice@.len(),
                forall|c: &[T]| #[trigger] (*f).requires((c,))
            ensures
                maps_chunks(right@, chunk as nat, *f, r@)
            { fork_chunks(right, chunk, f) },
    );
    proof {
        assert(left@ =~= slice@.take(mid as int));
        assert(right@ =~= slice@.skip(mid as int));
        lemma_maps_chunks(slice@, chunk as nat, *f, half as nat, a@, b@);
    }
    a.append(&mut b);
    a
}

} // verus!
