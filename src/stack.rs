use vstd::multiset::Multiset;
use vstd::prelude::*;

use crate::image::{lemma_offset_in_bounds, FrameType, Image, ImageError};
use crate::order::{ascending, key_is_exact, keys_of, lemma_sorted_is_unique, sort_by_key};

verus! {

/// Every image of the sequence holds one sample per coordinate.
pub open spec fn all_wf<S>(images: Seq<Image<S>>) -> bool {
    forall|k: int| 0 <= k < images.len() ==> (#[trigger] images[k]).wf()
}

/// Why a sequence of images cannot be combined, if it cannot.
pub open spec fn stack_error<S>(images: Seq<Image<S>>) -> Option<ImageError> {
    if images.len() == 0 {
        Some(ImageError::EmptyInput)
    } else if exists|k: int| 0 <= k < images.len() && !(#[trigger] images[k]).same_shape(&images[0]) {
        Some(ImageError::DimensionMismatch)
    } else {
        None
    }
}

/// The samples found at buffer position `i`, one per image, in input order.
pub open spec fn column<S>(images: Seq<Image<S>>, i: int) -> Seq<S> {
    Seq::new(images.len(), |k: int| images[k].samples@[i])
}

/// `x` is a result of applying `reduce` to a vector holding exactly `col`.
pub open spec fn reduced_from<S, F: Fn(&Vec<S>) -> S>(reduce: F, col: Seq<S>, x: S) -> bool {
    exists|v: Vec<S>| v@ == col && #[trigger] reduce.ensures((&v,), x)
}

/// Checks that a stack is non-empty and uniform in shape, and returns that shape.
pub fn check_stack<S>(images: &Vec<Image<S>>) -> (r: Result<(usize, usize), ImageError>)
    ensures
        stack_error(images@) matches Some(e) ==> r == Err::<(usize, usize), ImageError>(e),
        stack_error(images@) is None ==> r == Ok::<(usize, usize), ImageError>(
            (images@[0].width, images@[0].height),
        ),
{
    if images.len() == 0 {
        return Err(ImageError::EmptyInput);
    }
    let width = images[0].width;
    let height = images[0].height;
    let mut k: usize = 1;
    while k < images.len()
        invariant
            1 <= k <= images@.len(),
            width == images@[0].width,
            height == images@[0].height,
            forall|j: int| 0 <= j < k ==> (#[trigger] images@[j]).same_shape(&images@[0]),
        decreases images@.len() - k,
    {
        if images[k].width != width || images[k].height != height {
            assert(!images@[k as int].same_shape(&images@[0]));
            return Err(ImageError::DimensionMismatch);
        }
        k = k + 1;
    }
    Ok((width, height))
}

/// Collects the samples at buffer position `i` of every image, in input order.
pub fn gather<S: Copy>(images: &Vec<Image<S>>, i: usize) -> (r: Vec<S>)
    requires
        all_wf(images@),
        stack_error(images@) is None,
        i < images@[0].samples@.len(),
    ensures
        r@ == column(images@, i as int),
{
    let mut r: Vec<S> = Vec::with_capacity(images.len());
    let mut k: usize = 0;
    while k < images.len()
        invariant
            k <= images@.len(),
            all_wf(images@),
            stack_error(images@) is None,
            i < images@[0].samples@.len(),
            r@ == column(images@, i as int).take(k as int),
        decreases images@.len() - k,
    {
        assert(images@[k as int].same_shape(&images@[0]));
        assert(images@[k as int].wf());
        r.push(images[k].samples[i]);
        k = k + 1;
        assert(r@ =~= column(images@, i as int).take(k as int));
    }
    assert(r@ =~= column(images@, i as int));
    r
}

/// Reduces every coordinate of a stack of same-sized images to one sample.
///
/// The stack must be non-empty and uniform in shape; otherwise the matching
/// error comes back and nothing is computed. The output takes its shape and
/// frame role from the first image, and its sample at each buffer position is
/// what `reduce` yields on the samples found there, in input order.
pub fn combine<S: Copy, F: Fn(&Vec<S>) -> S>(images: &Vec<Image<S>>, reduce: &F) -> (r: Result<
    Image<S>,
    ImageError,
>)
    requires
        all_wf(images@),
        forall|v: &Vec<S>| v@.len() == images@.len() ==> #[trigger] reduce.requires((v,)),
    ensures
        stack_error(images@) matches Some(e) ==> r == Err::<Image<S>, ImageError>(e),
        stack_error(images@) is None ==> (r matches Ok(out) && out.wf() && out.same_shape(
            &images@[0],
        ) && out.frame_type == images@[0].frame_type && forall|i: int|
            0 <= i < out.samples@.len() ==> reduced_from(
                *reduce,
                column(images@, i),
                #[trigger] out.samples@[i],
            )),
{
    let (width, height) = match check_stack(images) {
        Ok(shape) => shape,
        Err(e) => {
            return Err(e);
        },
    };
    let n = images[0].samples.len();
    let mut samples: Vec<S> = Vec::with_capacity(n);
    let mut i: usize = 0;
    while i < n
        invariant
            i <= n,
            n == images@[0].samples@.len(),
            n == width * height,
            width == images@[0].width,
            height == images@[0].height,
            all_wf(images@),
            stack_error(images@) is None,
            forall|v: &Vec<S>| v@.len() == images@.len() ==> #[trigger] reduce.requires((v,)),
            samples@.len() == i,
            forall|j: int|
                0 <= j < i ==> reduced_from(*reduce, column(images@, j), #[trigger] samples@[j]),
        decreases n - i,
    {
        let col = gather(images, i);
        let x = reduce(&col);
        assert(reduced_from(*reduce, column(images@, i as int), x));
        samples.push(x);
        i = i + 1;
    }
    let frame_type: FrameType = images[0].frame_type;
    Ok(Image { width, height, frame_type, samples })
}

/// Reduces the coordinates of one row of a stack, as `combine` does for the
/// whole grid; rows can thus be handed to separate workers and joined with
/// `Image::from_rows`.
pub fn reduce_row<S: Copy, F: Fn(&Vec<S>) -> S>(images: &Vec<Image<S>>, row: usize, reduce: &F) -> (r:
    Vec<S>)
    requires
        all_wf(images@),
        stack_error(images@) is None,
        row < images@[0].height,
        forall|v: &Vec<S>| v@.len() == images@.len() ==> #[trigger] reduce.requires((v,)),
    ensures
        r@.len() == images@[0].width,
        forall|c: int|
            0 <= c < r@.len() ==> reduced_from(
                *reduce,
                column(images@, images@[0].offset(row as int, c)),
                #[trigger] r@[c],
            ),
{
    let width = images[0].width;
    let height = images[0].height;
    let mut out: Vec<S> = Vec::with_capacity(width);
    let mut c: usize = 0;
    assert(images@[0].wf());
    let n = images[0].samples.len();
    while c < width
        invariant
            c <= width,
            n == width * height,
            width == images@[0].width,
            height == images@[0].height,
            row < height,
            all_wf(images@),
            stack_error(images@) is None,
            forall|v: &Vec<S>| v@.len() == images@.len() ==> #[trigger] reduce.requires((v,)),
            out@.len() == c,
            forall|j: int|
                0 <= j < c ==> reduced_from(
                    *reduce,
                    column(images@, images@[0].offset(row as int, j)),
                    #[trigger] out@[j],
                ),
        decreases width - c,
    {
        proof {
            lemma_offset_in_bounds(width as int, height as int, row as int, c as int);
        }
        assert(row * width + c < n);
        let col = gather(images, row * width + c);
        let x = reduce(&col);
        assert(reduced_from(*reduce, column(images@, images@[0].offset(row as int, c as int)), x));
        out.push(x);
        c = c + 1;
    }
    out
}

/// An empty stack cannot be combined: every combination over it fails with
/// `EmptyInput` and produces no image.
pub proof fn lemma_empty_stack_fails<S>(images: Seq<Image<S>>)
    requires
        images.len() == 0,
    ensures
        stack_error(images) == Some(ImageError::EmptyInput),
{
}

/// A stack in which some image differs in width or height from the first one
/// cannot be combined: every combination over it fails with
/// `DimensionMismatch` and produces no image.
pub proof fn lemma_mixed_shapes_fail<S>(images: Seq<Image<S>>, k: int)
    requires
        0 <= k < images.len(),
        images[k].width != images[0].width || images[k].height != images[0].height,
    ensures
        stack_error(images) == Some(ImageError::DimensionMismatch),
{
    assert(!images[k].same_shape(&images[0]));
}

/// In a stack of copies of one image, the samples gathered at any buffer
/// position are that image's sample there, once per copy; a combination of
/// such a stack thus reduces, at each coordinate, copies of a single value.
pub proof fn lemma_copies_column<S>(images: Seq<Image<S>>, img: Image<S>, i: int)
    requires
        forall|k: int| 0 <= k < images.len() ==> #[trigger] images[k] == img,
    ensures
        column(images, i) == Seq::new(images.len(), |k: int| img.samples@[i]),
{
    assert(column(images, i) =~= Seq::new(images.len(), |k: int| img.samples@[i]));
}

/// Combining copies of one image with a reducer that gives back `x` for any
/// run of samples all equal to `x` (as an exact mean does) gives back that
/// image's samples.
pub proof fn lemma_combined_copies<S, F: Fn(&Vec<S>) -> S>(
    images: Seq<Image<S>>,
    img: Image<S>,
    reduce: F,
    out: Image<S>,
)
    requires
        images.len() > 0,
        forall|k: int| 0 <= k < images.len() ==> #[trigger] images[k] == img,
        forall|v: &Vec<S>, r: S|
            v@.len() > 0 && (forall|k: int| 0 <= k < v@.len() ==> #[trigger] v@[k] == v@[0]) && #[trigger] reduce.ensures((v,), r)
                ==> r == v@[0],
        out.samples@.len() == img.samples@.len(),
        forall|i: int|
            0 <= i < out.samples@.len() ==> reduced_from(reduce, column(images, i), #[trigger] out.samples@[i]),
    ensures
        out.samples@ == img.samples@,
{
    assert forall|i: int| 0 <= i < out.samples@.len() implies out.samples@[i] == img.samples@[i] by {
        lemma_copies_column(images, img, i);
        assert(reduced_from(reduce, column(images, i), out.samples@[i]));
        let v = choose|v: Vec<S>| v@ == column(images, i) && #[trigger] reduce.ensures((&v,), out.samples@[i]);
        assert(forall|k: int| 0 <= k < v@.len() ==> v@[k] == img.samples@[i]);
        assert(v@[0] == img.samples@[i]);
    }
    assert(out.samples@ =~= img.samples@);
}

/// The values whose flag in `keep` is set, in their original order.
pub open spec fn kept<S>(values: Seq<S>, keep: Seq<bool>) -> Seq<S>
    decreases values.len(),
{
    if values.len() == 0 {
        Seq::empty()
    } else {
        let rest = kept(values.drop_last(), keep.take(values.len() - 1));
        if keep[values.len() - 1] {
            rest.push(values.last())
        } else {
            rest
        }
    }
}

/// Filtering keeps no more values than it is given, and only values it is given.
pub proof fn lemma_kept_within<S>(values: Seq<S>, keep: Seq<bool>)
    ensures
        kept(values, keep).len() <= values.len(),
        forall|x: S| kept(values, keep).contains(x) ==> values.contains(x),
    decreases values.len(),
{
    if values.len() > 0 {
        let n = values.len() - 1;
        lemma_kept_within(values.drop_last(), keep.take(n));
        let rest = kept(values.drop_last(), keep.take(n));
        assert forall|x: S| kept(values, keep).contains(x) implies values.contains(x) by {
            if rest.contains(x) {
                assert(values.drop_last().contains(x));
                let j = choose|j: int| 0 <= j < values.drop_last().len() && values.drop_last()[j]
                    == x;
                assert(values[j] == x);
            } else {
                assert(keep[n]);
                let j = choose|j: int| 0 <= j < rest.push(values.last()).len() && rest.push(
                    values.last(),
                )[j] == x;
                assert(j == rest.len());
                assert(values[n] == x);
            }
        }
    }
}

/// Keeps the values whose flag in `keep` is set, in their original order.
pub fn retain_kept<S: Copy>(values: &Vec<S>, keep: &Vec<bool>) -> (r: Vec<S>)
    requires
        keep@.len() == values@.len(),
    ensures
        r@ == kept(values@, keep@),
{
    let mut r: Vec<S> = Vec::new();
    let mut i: usize = 0;
    while i < values.len()
        invariant
            i <= values@.len(),
            keep@.len() == values@.len(),
            r@ == kept(values@.take(i as int), keep@.take(i as int)),
        decreases values@.len() - i,
    {
        proof {
            let vi = values@.take(i + 1);
            assert(vi.drop_last() =~= values@.take(i as int));
            assert(keep@.take(i + 1).take(i as int) =~= keep@.take(i as int));
        }
        if keep[i] {
            r.push(values[i]);
        }
        i = i + 1;
    }
    assert(values@.take(i as int) =~= values@);
    assert(keep@.take(i as int) =~= keep@);
    r
}

/// `rest` is what `k` rounds of clipping leave of `values`: nothing happens
/// once no round is left or two samples or fewer remain; otherwise `select`
/// marks, on a vector holding exactly the current samples, those that stay,
/// and the remaining rounds go on from the samples it kept.
pub open spec fn clip_rounds<S, K: Fn(&Vec<S>) -> Vec<bool>>(
    select: K,
    values: Seq<S>,
    k: nat,
    rest: Seq<S>,
) -> bool
    decreases k,
{
    if k == 0 || values.len() <= 2 {
        rest == values
    } else {
        exists|v: Vec<S>, m: Vec<bool>|
            v@ == values && #[trigger] select.ensures((&v,), m) && clip_rounds(
                select,
                kept(values, m@),
                (k - 1) as nat,
                rest,
            )
    }
}

/// Iterative outlier rejection over the samples of one coordinate.
///
/// Up to `iterations` rounds are run; a round is skipped, and the loop stops,
/// once two samples or fewer remain. In each round `select` marks the samples
/// that stay (in practice: those within the chosen number of standard
/// deviations of the mean), and the others are discarded.
pub fn clip_column<S: Copy, K: Fn(&Vec<S>) -> Vec<bool>>(values: Vec<S>, iterations: usize, select: &K) -> (r:
    Vec<S>)
    requires
        forall|v: &Vec<S>| #[trigger] select.requires((v,)),
        forall|v: &Vec<S>, m: Vec<bool>| #[trigger] select.ensures((v,), m) ==> m@.len() == v@.len(),
    ensures
        clip_rounds(*select, values@, iterations as nat, r@),
        iterations == 0 ==> r@ == values@,
        values@.len() <= 2 ==> r@ == values@,
        r@.len() <= values@.len(),
        forall|x: S| r@.contains(x) ==> values@.contains(x),
{
    let ghost all = values@;
    let mut current = values;
    let mut round: usize = 0;
    while round < iterations && current.len() > 2
        invariant
            forall|v: &Vec<S>| #[trigger] select.requires((v,)),
            forall|v: &Vec<S>, m: Vec<bool>| #[trigger] select.ensures((v,), m) ==> m@.len()
                == v@.len(),
            round <= iterations,
            round == 0 ==> current@ == values@,
            values@.len() <= 2 ==> current@ == values@,
            current@.len() <= values@.len(),
            forall|x: S| current@.contains(x) ==> values@.contains(x),
            all == values@,
            forall|rest: Seq<S>|
                #[trigger] clip_rounds(*select, current@, (iterations - round) as nat, rest)
                    ==> clip_rounds(*select, all, iterations as nat, rest),
        decreases iterations - round,
    {
        let keep = select(&current);
        let next = retain_kept(&current, &keep);
        proof {
            lemma_kept_within(current@, keep@);
            assert forall|rest: Seq<S>|
                #[trigger] clip_rounds(*select, next@, (iterations - (round + 1)) as nat, rest)
                    implies clip_rounds(*select, all, iterations as nat, rest) by {
                assert(clip_rounds(*select, current@, (iterations - round) as nat, rest));
            }
        }
        current = next;
        round = round + 1;
    }
    proof {
        assert(clip_rounds(*select, current@, (iterations - round) as nat, current@));
    }
    current
}

/// Positions, in a sorted sequence of `n` values, of the two values whose mean
/// is the median: the middle one twice when `n` is odd, the two middle ones
/// when `n` is even.
pub fn median_positions(n: usize) -> (r: (usize, usize))
    requires
        n > 0,
    ensures
        n % 2 == 1 ==> r == (n / 2, n / 2),
        n % 2 == 0 ==> r == ((n / 2 - 1) as usize, n / 2),
        r.0 <= r.1 < n,
{
    if n % 2 == 0 {
        (n / 2 - 1, n / 2)
    } else {
        (n / 2, n / 2)
    }
}

/// `r` is the median of the sorted sequence `sorted`: its middle value when
/// it has an odd length, otherwise what `midpoint` yields on its two middle
/// values.
pub open spec fn median_rule<S, A: Fn(S, S) -> S>(midpoint: A, sorted: Seq<S>, r: S) -> bool {
    let h = sorted.len() / 2;
    if sorted.len() % 2 == 1 {
        r == sorted[h as int]
    } else {
        midpoint.ensures((sorted[h - 1], sorted[h as int]), r)
    }
}

/// Median of values already sorted in ascending order.
pub fn median_of_sorted<S: Copy, A: Fn(S, S) -> S>(sorted: &Vec<S>, midpoint: &A) -> (r: S)
    requires
        sorted@.len() > 0,
        forall|a: S, b: S| #[trigger] midpoint.requires((a, b)),
    ensures
        median_rule(*midpoint, sorted@, r),
{
    let (lo, hi) = median_positions(sorted.len());
    if lo == hi {
        sorted[lo]
    } else {
        midpoint(sorted[lo], sorted[hi])
    }
}

/// `sorted` holds the values of `values`, arranged so that the keys `key`
/// gave them (`keys`) never decrease, and `r` is its median.
pub open spec fn median_outcome<S, K: Fn(S) -> u64, A: Fn(S, S) -> S>(
    key: K,
    midpoint: A,
    values: Seq<S>,
    sorted: Seq<S>,
    keys: Seq<u64>,
    r: S,
) -> bool {
    &&& sorted.to_multiset() == values.to_multiset()
    &&& sorted.len() == values.len()
    &&& keys_of(key, sorted, keys)
    &&& ascending(keys)
    &&& median_rule(midpoint, sorted, r)
}

/// Median of samples in any order: they are sorted by the keys `key` gives
/// them, and the median of the sorted sequence is taken.
pub fn median_by_key<S: Copy, K: Fn(S) -> u64, A: Fn(S, S) -> S>(
    values: Vec<S>,
    key: &K,
    midpoint: &A,
) -> (r: S)
    requires
        values@.len() > 0,
        forall|a: S| #[trigger] key.requires((a,)),
        forall|a: S, b: S| #[trigger] midpoint.requires((a, b)),
    ensures
        exists|sorted: Seq<S>, keys: Seq<u64>|
            #[trigger] median_outcome(*key, *midpoint, values@, sorted, keys, r),
{
    let ghost original = values@;
    let mut sorted = values;
    let keys = sort_by_key(&mut sorted, key);
    proof {
        sorted@.to_multiset_ensures();
        original.to_multiset_ensures();
    }
    let r = median_of_sorted(&sorted, midpoint);
    assert(median_outcome(*key, *midpoint, original, sorted@, keys@, r));
    r
}

/// The median of a single sample is that sample.
pub proof fn lemma_median_of_one<S, K: Fn(S) -> u64, A: Fn(S, S) -> S>(
    key: K,
    midpoint: A,
    a: S,
    sorted: Seq<S>,
    keys: Seq<u64>,
    r: S,
)
    requires
        median_outcome(key, midpoint, seq![a], sorted, keys, r),
    ensures
        r == a,
{
    broadcast use vstd::seq_lib::group_to_multiset_ensures;

    assert(sorted.to_multiset().count(sorted[0]) > 0);
    assert(seq![a].to_multiset().contains(sorted[0]));
    assert(seq![a].contains(sorted[0]));
    assert(seq![a][0] == a);
}

/// The median of two samples is what `midpoint` yields on them, the one with
/// the smaller key first (either one when the keys are equal).
pub proof fn lemma_median_of_two<S, K: Fn(S) -> u64, A: Fn(S, S) -> S>(
    key: K,
    midpoint: A,
    a: S,
    b: S,
    sorted: Seq<S>,
    keys: Seq<u64>,
    r: S,
)
    requires
        median_outcome(key, midpoint, seq![a, b], sorted, keys, r),
    ensures
        (sorted == seq![a, b] && midpoint.ensures((a, b), r)) || (sorted == seq![b, a]
            && midpoint.ensures((b, a), r)),
        keys[0] <= keys[1],
        key.ensures((sorted[0],), keys[0]),
        key.ensures((sorted[1],), keys[1]),
{
    broadcast use vstd::seq_lib::group_to_multiset_ensures;
    broadcast use vstd::multiset::group_multiset_properties;

    let s = seq![a, b];
    assert(s[0] == a && s[1] == b);
    assert(s =~= seq![a].push(b));
    assert(seq![a] =~= Seq::<S>::empty().push(a));
    assert(s.to_multiset() =~= Multiset::empty().insert(a).insert(b));
    assert(sorted =~= seq![sorted[0]].push(sorted[1]));
    assert(seq![sorted[0]] =~= Seq::<S>::empty().push(sorted[0]));
    assert(sorted.to_multiset() =~= Multiset::empty().insert(sorted[0]).insert(sorted[1]));
    let m = Multiset::empty().insert(a).insert(b);
    assert(m.count(sorted[0]) > 0);
    assert(m.count(sorted[1]) > 0);
    if sorted[0] == a {
        assert(m.remove(a) =~= Multiset::empty().insert(b));
        let m2 = Multiset::<S>::empty().insert(sorted[0]).insert(sorted[1]);
        assert(m2.remove(a) =~= Multiset::empty().insert(sorted[1]));
        assert(Multiset::<S>::empty().insert(b).count(sorted[1]) > 0);
        assert(sorted =~= seq![a, b]);
    } else {
        assert(sorted[0] == b);
        assert(m.remove(b) =~= Multiset::empty().insert(a));
        let m2 = Multiset::<S>::empty().insert(sorted[0]).insert(sorted[1]);
        assert(m2.remove(b) =~= Multiset::empty().insert(sorted[1]));
        assert(Multiset::<S>::empty().insert(a).count(sorted[1]) > 0);
        assert(sorted =~= seq![b, a]);
    }
}

/// With an exact key and a `midpoint` that gives one result for each pair,
/// the median does not depend on the order in which the samples come.
pub proof fn lemma_median_ignores_order<S, K: Fn(S) -> u64, A: Fn(S, S) -> S>(
    key: K,
    midpoint: A,
    v1: Seq<S>,
    sorted1: Seq<S>,
    keys1: Seq<u64>,
    r1: S,
    v2: Seq<S>,
    sorted2: Seq<S>,
    keys2: Seq<u64>,
    r2: S,
)
    requires
        key_is_exact(key),
        forall|a: S, b: S, x: S, y: S|
            #[trigger] midpoint.ensures((a, b), x) && #[trigger] midpoint.ensures((a, b), y) ==> x
                == y,
        v1.to_multiset() == v2.to_multiset(),
        median_outcome(key, midpoint, v1, sorted1, keys1, r1),
        median_outcome(key, midpoint, v2, sorted2, keys2, r2),
    ensures
        r1 == r2,
{
    lemma_sorted_is_unique(key, sorted1, keys1, sorted2, keys2);
}

/// `r` is the outcome of sigma clipping `values`: `rest` is what
/// `iterations` rounds of `select` leave of them, and `r` is `mean` of `rest`,
/// or `empty` when nothing is left.
pub open spec fn clip_outcome<S, K: Fn(&Vec<S>) -> Vec<bool>, M: Fn(&Vec<S>) -> S>(
    select: K,
    mean: M,
    values: Seq<S>,
    iterations: nat,
    rest: Seq<S>,
    empty: S,
    r: S,
) -> bool {
    &&& clip_rounds(select, values, iterations, rest)
    &&& rest.len() <= values.len()
    &&& forall|x: S| rest.contains(x) ==> values.contains(x)
    &&& rest.len() == 0 ==> r == empty
    &&& rest.len() > 0 ==> reduced_from(mean, rest, r)
}

/// Sigma-clipped reduction of the samples of one coordinate: the rounds of
/// `clip_column`, then `mean` of what remains, or `empty` when nothing does.
///
/// With no rounds, or with two samples or fewer, nothing is discarded and the
/// result is `mean` of all the samples.
pub fn clipped_reduce<S: Copy, K: Fn(&Vec<S>) -> Vec<bool>, M: Fn(&Vec<S>) -> S>(
    values: Vec<S>,
    iterations: usize,
    select: &K,
    mean: &M,
    empty: S,
) -> (r: S)
    requires
        forall|v: &Vec<S>| #[trigger] select.requires((v,)),
        forall|v: &Vec<S>, m: Vec<bool>| #[trigger] select.ensures((v,), m) ==> m@.len() == v@.len(),
        forall|v: &Vec<S>| v@.len() > 0 ==> #[trigger] mean.requires((v,)),
    ensures
        values@.len() > 0 && (iterations == 0 || values@.len() <= 2) ==> reduced_from(
            *mean,
            values@,
            r,
        ),
        exists|rest: Seq<S>|
            #[trigger] clip_outcome(*select, *mean, values@, iterations as nat, rest, empty, r),
{
    let ghost all = values@;
    let rest = clip_column(values, iterations, select);
    if rest.len() == 0 {
        assert(clip_outcome(*select, *mean, all, iterations as nat, rest@, empty, empty));
        empty
    } else {
        let r = mean(&rest);
        assert(reduced_from(*mean, rest@, r));
        assert(clip_outcome(*select, *mean, all, iterations as nat, rest@, empty, r));
        r
    }
}

/// Keeping no flagged value keeps nothing.
proof fn lemma_kept_none<S>(values: Seq<S>, keep: Seq<bool>)
    requires
        forall|i: int| 0 <= i < keep.len() ==> !keep[i],
        keep.len() == values.len(),
    ensures
        kept(values, keep).len() == 0,
    decreases values.len(),
{
    if values.len() > 0 {
        lemma_kept_none(values.drop_last(), keep.take(values.len() - 1));
    }
}

/// When a round rejects every sample it is shown (as bounds of a negative
/// width do), sigma clipping with at least one round over more than two
/// samples leaves nothing, and the result is the `empty` fallback.
pub proof fn lemma_all_rejected_gives_fallback<S, K: Fn(&Vec<S>) -> Vec<bool>, M: Fn(&Vec<S>) -> S>(
    select: K,
    mean: M,
    values: Seq<S>,
    iterations: nat,
    rest: Seq<S>,
    empty: S,
    r: S,
)
    requires
        iterations > 0,
        values.len() > 2,
        forall|v: &Vec<S>, m: Vec<bool>|
            #[trigger] select.ensures((v,), m) ==> m@.len() == v@.len() && forall|i: int|
                0 <= i < m@.len() ==> !m@[i],
        clip_outcome(select, mean, values, iterations, rest, empty, r),
    ensures
        r == empty,
{
    let (v, m) = choose|v: Vec<S>, m: Vec<bool>|
        v@ == values && #[trigger] select.ensures((&v,), m) && clip_rounds(
            select,
            kept(values, m@),
            (iterations - 1) as nat,
            rest,
        );
    lemma_kept_none(values, m@);
    assert(rest == kept(values, m@));
}

/// `reduce` gives the same result on any two vectors holding the same values.
pub open spec fn depends_on_values<S, F: Fn(&Vec<S>) -> S>(reduce: F) -> bool {
    forall|v: &Vec<S>, w: &Vec<S>, x: S, y: S|
        v@ == w@ && #[trigger] reduce.ensures((v,), x) && #[trigger] reduce.ensures((w,), y) ==> x
            == y
}

/// Sigma clipping with no rounds gives the same image as the average: if
/// `averaged` combines a stack with `mean`, and `clipped` combines it with a
/// reducer each of whose results on non-empty samples is a result of `mean`
/// on them (as `clipped_reduce` promises with no rounds), the two hold the
/// same samples, provided `mean` depends on the values alone.
pub proof fn lemma_zero_rounds_match_average<S, M: Fn(&Vec<S>) -> S, C: Fn(&Vec<S>) -> S>(
    images: Seq<Image<S>>,
    mean: M,
    clip: C,
    averaged: Image<S>,
    clipped: Image<S>,
)
    requires
        images.len() > 0,
        depends_on_values(mean),
        forall|v: &Vec<S>, x: S|
            v@.len() > 0 && #[trigger] clip.ensures((v,), x) ==> reduced_from(mean, v@, x),
        averaged.samples@.len() == clipped.samples@.len(),
        forall|i: int|
            0 <= i < averaged.samples@.len() ==> reduced_from(
                mean,
                column(images, i),
                #[trigger] averaged.samples@[i],
            ),
        forall|i: int|
            0 <= i < clipped.samples@.len() ==> reduced_from(
                clip,
                column(images, i),
                #[trigger] clipped.samples@[i],
            ),
    ensures
        averaged.samples@ == clipped.samples@,
{
    assert forall|i: int| 0 <= i < averaged.samples@.len() implies averaged.samples@[i]
        == clipped.samples@[i] by {
        let a = averaged.samples@[i];
        let c = clipped.samples@[i];
        assert(reduced_from(mean, column(images, i), a));
        assert(reduced_from(clip, column(images, i), c));
        let va = choose|v: Vec<S>| v@ == column(images, i) && #[trigger] mean.ensures((&v,), a);
        let vc = choose|v: Vec<S>| v@ == column(images, i) && #[trigger] clip.ensures((&v,), c);
        assert(vc@.len() > 0);
        assert(reduced_from(mean, vc@, c));
        let vm = choose|v: Vec<S>| v@ == vc@ && #[trigger] mean.ensures((&v,), c);
        assert(va@ == vm@);
    }
    assert(averaged.samples@ =~= clipped.samples@);
}

} // verus!
