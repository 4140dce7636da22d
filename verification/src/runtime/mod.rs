//! Sharing the packages of a workspace out over parallel runs.

pub mod execute;

use crate::config::{ChannelView, Config};
use crate::error::{ChunkArgumentError, ConfigError};
use crate::feature::generate::generate;
use crate::feature::matrix::FeatureMatrix;
use crate::package::{Package, PackageView};
use crate::text::texts;
use vstd::prelude::*;
use vstd::slice::slice_subrange;
use vstd::string::*;

verus! {

/// The matrix of `package` under `channel`, together with the package.
pub fn generate_matrix<'a>(package: &'a Package, config: &Config, channel: &str) -> (r: Result<
    (&'a Package, FeatureMatrix),
    ConfigError,
>)
    ensures
        match r {
            Ok((same, matrix)) => same == package && generate(package@, config@, channel@) == Ok::<
                _,
                ConfigError,
            >(matrix@),
            Err(e) => generate(package@, config@, channel@) == Err::<Set<Set<Seq<char>>>, _>(e),
        },
{
    let matrix = FeatureMatrix::new(package, config, channel)?;
    Ok((package, matrix))
}

/// The packages for which a matrix can be generated under the channel `name`,
/// each with its matrix, in the order of `packages`. A package whose matrix
/// cannot be generated is left out, and the others are not affected.
pub open spec fn generated(
    packages: Seq<(PackageView, Seq<ChannelView>)>,
    name: Seq<char>,
) -> Seq<(PackageView, Set<Set<Seq<char>>>)>
    decreases packages.len(),
{
    if packages.len() == 0 {
        Seq::empty()
    } else {
        let before = generated(packages.drop_last(), name);
        match generate(packages.last().0, packages.last().1, name) {
            Ok(matrix) => before.push((packages.last().0, matrix)),
            Err(_) => before,
        }
    }
}

/// The packages with their configurations, in terms of texts.
pub open spec fn configured_views(packages: Seq<(Package, Config)>) -> Seq<
    (PackageView, Seq<ChannelView>),
> {
    packages.map_values(|p: (Package, Config)| (p.0@, p.1@))
}

/// The packages with their matrices, in terms of texts.
pub open spec fn generated_views(generated: Seq<(&Package, FeatureMatrix)>) -> Seq<
    (PackageView, Set<Set<Seq<char>>>),
> {
    generated.map_values(|g: (&Package, FeatureMatrix)| (g.0@, g.1@))
}

/// The matrix of each of the `packages` under `channel`. A package whose
/// matrix cannot be generated is left out.
pub fn generate_matrices<'a>(packages: &'a Vec<(Package, Config)>, channel: &str) -> (matrices:
    Vec<(&'a Package, FeatureMatrix)>)
    ensures
        generated_views(matrices@) == generated(configured_views(packages@), channel@),
{
    let mut matrices: Vec<(&'a Package, FeatureMatrix)> = Vec::new();
    let mut i: usize = 0;
    while i < packages.len()
        invariant
            0 <= i <= packages.len(),
            generated_views(matrices@) =~= generated(
                configured_views(packages@).take(i as int),
                channel@,
            ),
        decreases packages.len() - i,
    {
        let ghost so_far = generated_views(matrices@);
        proof {
            let next = configured_views(packages@).take(i + 1);
            assert(next.drop_last() =~= configured_views(packages@).take(i as int));
            assert(next.last() == (packages@[i as int].0@, packages@[i as int].1@));
        }
        match generate_matrix(&packages[i].0, &packages[i].1, channel) {
            Ok(pair) => {
                matrices.push(pair);
                assert(generated_views(matrices@) =~= so_far.push((pair.0@, pair.1@)));
            },
            Err(_) => {},
        }
        i = i + 1;
    }
    assert(configured_views(packages@).take(i as int) =~= configured_views(packages@));
    matrices
}

/// What is wrong with the chunk arguments, if anything. The chunk index is
/// looked at first, then the number of chunks.
pub open spec fn chunk_argument_error(num_chunks: int, chunk_index: int) -> Option<
    ChunkArgumentError,
> {
    if chunk_index == 0 {
        Some(ChunkArgumentError::ZeroChunkIndex)
    } else if num_chunks == 0 {
        Some(ChunkArgumentError::ZeroChunkCount)
    } else if chunk_index > num_chunks {
        Some(ChunkArgumentError::ChunkIndexOutOfRange)
    } else {
        None
    }
}

/// The size of the chunks into which `len` items are split for `num_chunks`
/// runs: `len / num_chunks`, rounded up.
pub open spec fn chunk_size(len: int, num_chunks: int) -> int {
    if len % num_chunks == 0 {
        len / num_chunks
    } else {
        len / num_chunks + 1
    }
}

/// The smaller of two numbers.
pub open spec fn at_most(a: int, b: int) -> int {
    if a <= b {
        a
    } else {
        b
    }
}

/// The position of the first item of the chunk `chunk_index`, counted from 1.
pub open spec fn chunk_start(len: int, num_chunks: int, chunk_index: int) -> int {
    at_most(len, (chunk_index - 1) * chunk_size(len, num_chunks))
}

/// The position behind the last item of the chunk `chunk_index`, counted from 1.
pub open spec fn chunk_end(len: int, num_chunks: int, chunk_index: int) -> int {
    at_most(len, chunk_index * chunk_size(len, num_chunks))
}

/// The chunk `chunk_index`, counted from 1, of `items` split for `num_chunks` runs.
pub open spec fn chunk_of<T>(items: Seq<T>, num_chunks: int, chunk_index: int) -> Seq<T> {
    items.subrange(
        chunk_start(items.len() as int, num_chunks, chunk_index),
        chunk_end(items.len() as int, num_chunks, chunk_index),
    )
}

/// The chunk size is the least size with which `num_chunks` chunks hold all items.
pub proof fn lemma_chunk_size_is_ceiling(len: int, num_chunks: int)
    requires
        0 <= len,
        0 < num_chunks,
    ensures
        0 <= chunk_size(len, num_chunks) <= len,
        num_chunks * chunk_size(len, num_chunks) >= len,
        len > 0 ==> num_chunks * (chunk_size(len, num_chunks) - 1) < len,
        len == 0 ==> chunk_size(len, num_chunks) == 0,
{
    let q = len / num_chunks;
    let r = len % num_chunks;
    assert(len == num_chunks * q + r && 0 <= r < num_chunks) by (nonlinear_arith)
        requires
            q == len / num_chunks,
            r == len % num_chunks,
            0 < num_chunks,
    ;
    assert(0 <= q <= len) by (nonlinear_arith)
        requires
            len == num_chunks * q + r,
            0 <= r < num_chunks,
            0 < num_chunks,
            0 <= len,
    ;
    assert(num_chunks * (q + 1) == num_chunks * q + num_chunks) by (nonlinear_arith);
    assert(num_chunks * (q - 1) == num_chunks * q - num_chunks) by (nonlinear_arith);
    if r != 0 {
        assert(q + 1 <= len) by (nonlinear_arith)
            requires
                len == num_chunks * q + r,
                0 < r < num_chunks,
                0 <= q,
        ;
    }
}

/// The chunks lie one behind the other and cover the items: the first begins
/// with the first item, each begins where the one before it ends, and the last
/// ends with the last item.
pub proof fn lemma_chunks_tile(len: int, num_chunks: int, chunk_index: int)
    requires
        0 <= len,
        1 <= chunk_index <= num_chunks,
    ensures
        chunk_start(len, num_chunks, 1) == 0,
        0 <= chunk_start(len, num_chunks, chunk_index) <= chunk_end(len, num_chunks, chunk_index)
            <= len,
        chunk_index < num_chunks ==> chunk_end(len, num_chunks, chunk_index) == chunk_start(
            len,
            num_chunks,
            chunk_index + 1,
        ),
        chunk_end(len, num_chunks, num_chunks) == len,
        chunk_end(len, num_chunks, chunk_index) - chunk_start(len, num_chunks, chunk_index)
            <= chunk_size(len, num_chunks),
{
    lemma_chunk_size_is_ceiling(len, num_chunks);
    let size = chunk_size(len, num_chunks);
    assert(0 * size == 0) by (nonlinear_arith);
    assert(0 <= (chunk_index - 1) * size <= chunk_index * size) by (nonlinear_arith)
        requires
            0 <= size,
            1 <= chunk_index,
    ;
    assert(chunk_index * size - (chunk_index - 1) * size == size) by (nonlinear_arith);
}

/// The first `count` chunks of `items` split for `num_chunks` runs, one behind
/// the other.
pub open spec fn chunks_up_to<T>(items: Seq<T>, num_chunks: int, count: int) -> Seq<T>
    decreases count,
{
    if count <= 0 {
        Seq::empty()
    } else {
        chunks_up_to(items, num_chunks, count - 1) + chunk_of(items, num_chunks, count)
    }
}

/// The chunks split the items without loss and without overlap: put one
/// behind the other, the chunks of `num_chunks` runs are the items in their
/// order.
pub proof fn lemma_chunks_partition<T>(items: Seq<T>, num_chunks: int, count: int)
    requires
        0 <= count <= num_chunks,
    ensures
        count > 0 ==> chunks_up_to(items, num_chunks, count) == items.subrange(
            0,
            chunk_end(items.len() as int, num_chunks, count),
        ),
        count == num_chunks > 0 ==> chunks_up_to(items, num_chunks, count) == items,
    decreases count,
{
    let len = items.len() as int;
    if count == 1 {
        lemma_chunks_tile(len, num_chunks, 1);
        assert(chunks_up_to(items, num_chunks, 0) =~= Seq::<T>::empty());
        assert(chunks_up_to(items, num_chunks, 1) =~= items.subrange(
            0,
            chunk_end(len, num_chunks, 1),
        ));
    } else if count > 1 {
        lemma_chunks_partition(items, num_chunks, count - 1);
        lemma_chunks_tile(len, num_chunks, count - 1);
        lemma_chunks_tile(len, num_chunks, count);
        assert(chunks_up_to(items, num_chunks, count) =~= items.subrange(
            0,
            chunk_end(len, num_chunks, count),
        ));
    }
    if count == num_chunks && count > 0 {
        lemma_chunks_tile(len, num_chunks, count);
        assert(items.subrange(0, len) =~= items);
    }
}

/// Where the chunk `chunk_index`, counted from 1, of `len` items split for
/// `num_chunks` runs begins, and where it ends.
pub fn chunk_bounds(len: usize, num_chunks: usize, chunk_index: usize) -> (r: Result<
    (usize, usize),
    ChunkArgumentError,
>)
    ensures
        match r {
            Ok((start, end)) => {
                &&& chunk_argument_error(num_chunks as int, chunk_index as int) is None
                &&& start == chunk_start(len as int, num_chunks as int, chunk_index as int)
                &&& end == chunk_end(len as int, num_chunks as int, chunk_index as int)
                &&& start <= end <= len
            },
            Err(e) => chunk_argument_error(num_chunks as int, chunk_index as int) == Some(e),
        },
{
    if chunk_index == 0 {
        return Err(ChunkArgumentError::ZeroChunkIndex);
    }
    if num_chunks == 0 {
        return Err(ChunkArgumentError::ZeroChunkCount);
    }
    if chunk_index > num_chunks {
        return Err(ChunkArgumentError::ChunkIndexOutOfRange);
    }
    proof {
        lemma_chunk_size_is_ceiling(len as int, num_chunks as int);
        lemma_chunks_tile(len as int, num_chunks as int, chunk_index as int);
    }
    let mut size = len / num_chunks;
    if len % num_chunks != 0 {
        size = size + 1;
    }
    let start = bounded_multiple(chunk_index - 1, size, len);
    let end = bounded_multiple(chunk_index, size, len);
    Ok((start, end))
}

/// The chunk `chunk_index`, counted from 1, of `items` split for `num_chunks`
/// runs. The items are split in their order into runs of
/// `chunk_size(items.len(), num_chunks)` items; the last run may be shorter,
/// and a chunk behind the last run is empty.
pub fn select_chunk<T>(items: &[T], num_chunks: usize, chunk_index: usize) -> (r: Result<
    &[T],
    ChunkArgumentError,
>)
    ensures
        match r {
            Ok(chunk) => chunk_argument_error(num_chunks as int, chunk_index as int) is None
                && chunk@ == chunk_of(items@, num_chunks as int, chunk_index as int),
            Err(e) => chunk_argument_error(num_chunks as int, chunk_index as int) == Some(e),
        },
{
    let (start, end) = chunk_bounds(items.len(), num_chunks, chunk_index)?;
    Ok(slice_subrange(items, start, end))
}

/// The smaller of `factor * size` and `limit`.
fn bounded_multiple(factor: usize, size: usize, limit: usize) -> (r: usize)
    requires
        size <= limit,
    ensures
        r == at_most(limit as int, factor * size),
{
    if size == 0 {
        assert(factor * size == 0) by (nonlinear_arith)
            requires
                size == 0,
        ;
        return 0;
    }
    let whole = limit / size;
    if factor > whole {
        assert(factor * size >= limit) by (nonlinear_arith)
            requires
                factor >= limit / size + 1,
                size > 0,
                limit >= 0,
        ;
        limit
    } else {
        assert(factor * size <= limit) by (nonlinear_arith)
            requires
                factor <= limit / size,
                size > 0,
                limit >= 0,
                factor >= 0,
        ;
        factor * size
    }
}

/// The positions at which `name` stands in `names`, in ascending order.
pub open spec fn positions_named(names: Seq<Seq<char>>, name: Seq<char>) -> Seq<int>
    decreases names.len(),
{
    if names.len() == 0 {
        Seq::empty()
    } else if names.last() == name {
        positions_named(names.drop_last(), name).push(names.len() - 1)
    } else {
        positions_named(names.drop_last(), name)
    }
}

/// The positions from `start` up to, but without, `end`.
pub open spec fn positions_between(start: int, end: int) -> Seq<int> {
    Seq::new((end - start) as nat, |i: int| start + i)
}

/// The given positions as integers.
pub open spec fn positions(chosen: Seq<usize>) -> Seq<int> {
    chosen.map_values(|p: usize| p as int)
}

/// The positions of the packages that a run works on, among the packages
/// named `names`: with a package filter, the packages of that name, and the
/// chunk arguments play no part; without one, the chunk `chunk_index`, counted
/// from 1, of `num_chunks`.
pub open spec fn selected_positions(
    names: Seq<Seq<char>>,
    package: Option<Seq<char>>,
    num_chunks: int,
    chunk_index: int,
) -> Result<Seq<int>, ChunkArgumentError> {
    match package {
        Some(name) => Ok(positions_named(names, name)),
        None => match chunk_argument_error(num_chunks, chunk_index) {
            Some(e) => Err(e),
            None => Ok(
                positions_between(
                    chunk_start(names.len() as int, num_chunks, chunk_index),
                    chunk_end(names.len() as int, num_chunks, chunk_index),
                ),
            ),
        },
    }
}

/// The positions of the packages that a run works on. An empty selection is
/// no error: there is nothing to do then.
pub fn select_packages(
    names: &Vec<String>,
    package: Option<&str>,
    num_chunks: usize,
    chunk_index: usize,
) -> (r: Result<Vec<usize>, ChunkArgumentError>)
    ensures
        match r {
            Ok(chosen) => Ok::<_, ChunkArgumentError>(positions(chosen@)) == selected_positions(
                texts(names@),
                match package {
                    Some(name) => Some(name@),
                    None => None,
                },
                num_chunks as int,
                chunk_index as int,
            ),
            Err(e) => package is None && chunk_argument_error(
                num_chunks as int,
                chunk_index as int,
            ) == Some(e),
        },
{
    let mut chosen: Vec<usize> = Vec::new();
    match package {
        Some(name) => {
            let wanted = name.to_owned();
            let mut i: usize = 0;
            while i < names.len()
                invariant
                    0 <= i <= names.len(),
                    wanted@ == name@,
                    positions(chosen@) =~= positions_named(texts(names@).take(i as int), name@),
                decreases names.len() - i,
            {
                let ghost so_far = positions(chosen@);
                proof {
                    let next = texts(names@).take(i + 1);
                    assert(next.drop_last() =~= texts(names@).take(i as int));
                    assert(next.last() == names@[i as int]@);
                }
                if names[i] == wanted {
                    chosen.push(i);
                    assert(positions(chosen@) =~= so_far.push(i as int));
                }
                i = i + 1;
            }
            assert(texts(names@).take(i as int) =~= texts(names@));
            Ok(chosen)
        },
        None => {
            let (start, end) = chunk_bounds(names.len(), num_chunks, chunk_index)?;
            let mut next = start;
            while next < end
                invariant
                    start <= next <= end,
                    positions(chosen@) =~= positions_between(start as int, next as int),
                decreases end - next,
            {
                let ghost so_far = positions(chosen@);
                chosen.push(next);
                assert(positions(chosen@) =~= so_far.push(next as int));
                next = next + 1;
            }
            Ok(chosen)
        },
    }
}

} // verus!
