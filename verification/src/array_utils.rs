use vstd::arithmetic::div_mod::*;
use vstd::arithmetic::mul::*;
use vstd::prelude::*;

verus! {

/// Lane `m` of a buffer made of concatenated lanes of length `n`.
pub open spec fn lane<A>(s: Seq<A>, n: nat, m: int) -> Seq<A> {
    s.subrange(m * n, (m + 1) * n)
}

/// What becomes of a buffer of concatenated lanes of length `n` when `f` is applied to each
/// lane on its own. Where `f` keeps the length `n`, lane `m` of the result is `f` of lane `m`.
pub open spec fn map_lanes<A>(f: spec_fn(Seq<A>) -> Seq<A>, n: nat, s: Seq<A>) -> Seq<A> {
    Seq::new(s.len(), |k: int| f(lane(s, n, k / (n as int)))[k % (n as int)])
}

/// A `height` by `width` grid stored row by row, read column by column: element
/// `x * height + y` of the result is element `y * width + x` of `s`.
pub open spec fn transposed<A>(width: nat, height: nat, s: Seq<A>) -> Seq<A> {
    Seq::new(s.len(), |k: int| s[(k % (height as int)) * width + k / (height as int)])
}

/// Lane `m` of a buffer of whole lanes lies in the buffer.
pub proof fn lemma_lane_bounds(total: nat, n: nat, m: int)
    requires
        n > 0,
        total % n == 0,
        0 <= m < total / n,
    ensures
        0 <= m * n,
        (m + 1) * n == m * n + n,
        (m + 1) * n <= total,
{
    lemma_fundamental_div_mod(total as int, n as int);
    lemma_mul_is_commutative(n as int, (total / n) as int);
    lemma_mul_is_distributive_add_other_way(n as int, m, 1);
    lemma_mul_nonnegative(m, n as int);
    lemma_mul_inequality(m + 1, (total / n) as int, n as int);
}

/// The place `m * n + j`, for `j` below `n`, is place `j` of lane `m`.
pub proof fn lemma_index_in_lane(n: nat, m: int, j: int)
    requires
        n > 0,
        0 <= m,
        0 <= j < n,
    ensures
        (m * n + j) / (n as int) == m,
        (m * n + j) % (n as int) == j,
{
    lemma_fundamental_div_mod_converse(m * n + j, n as int, m, j);
    lemma_mul_is_commutative(m, n as int);
}

/// Lane `m` of `map_lanes(f, n, s)` is `f` of lane `m` of `s`.
pub proof fn lemma_map_lanes_lane<A>(f: spec_fn(Seq<A>) -> Seq<A>, n: nat, s: Seq<A>, m: int)
    requires
        n > 0,
        s.len() % n == 0,
        0 <= m < s.len() / n,
        f(lane(s, n, m)).len() == n,
    ensures
        lane(map_lanes(f, n, s), n, m) == f(lane(s, n, m)),
{
    lemma_lane_bounds(s.len(), n, m);
    let l = lane(map_lanes(f, n, s), n, m);
    let r = f(lane(s, n, m));
    assert forall|j: int| 0 <= j < n implies l[j] == r[j] by {
        lemma_index_in_lane(n, m, j);
    }
    assert(l =~= r);
}

/// A buffer whose every lane is `f` of the same lane of `s` is `map_lanes(f, n, s)`.
pub proof fn lemma_map_lanes_from_lanes<A>(
    f: spec_fn(Seq<A>) -> Seq<A>,
    n: nat,
    s: Seq<A>,
    out: Seq<A>,
)
    requires
        n > 0,
        s.len() % n == 0,
        out.len() == s.len(),
        forall|m: int| 0 <= m < s.len() / n ==> #[trigger] lane(out, n, m) == f(lane(s, n, m)),
    ensures
        out == map_lanes(f, n, s),
{
    let r = map_lanes(f, n, s);
    assert forall|k: int| 0 <= k < out.len() implies out[k] == r[k] by {
        let m = k / (n as int);
        let j = k % (n as int);
        lemma_fundamental_div_mod(k, n as int);
        lemma_mul_is_commutative(m, n as int);
        lemma_div_pos_is_pos(k, n as int);
        lemma_div_is_ordered(k, s.len() as int, n as int);
        if m >= s.len() / n {
            lemma_fundamental_div_mod(s.len() as int, n as int);
            lemma_mul_inequality((s.len() / n) as int, m, n as int);
            lemma_mul_is_commutative((s.len() / n) as int, n as int);
            assert(false);
        }
        lemma_lane_bounds(s.len(), n, m);
        assert(lane(out, n, m)[j] == out[m * n + j]);
    }
    assert(out =~= r);
}

/// Copies `input` over `output`.
pub fn copy_into<A: Copy>(input: &[A], output: &mut [A])
    requires
        old(output)@.len() == input@.len(),
    ensures
        final(output)@ == input@,
{
    let n = input.len();
    let mut i: usize = 0;
    while i < n
        invariant
            n == input@.len(),
            output@.len() == n,
            i <= n,
            forall|j: int| 0 <= j < i ==> output@[j] == input@[j],
        decreases n - i,
    {
        output[i] = input[i];
        i += 1;
    }
    assert(output@ =~= input@);
}

/// Copies `input` into a new vector.
pub fn to_vec<A: Copy>(input: &[A]) -> (v: Vec<A>)
    ensures
        v@ == input@,
{
    let n = input.len();
    let mut v: Vec<A> = Vec::with_capacity(n);
    let mut i: usize = 0;
    while i < n
        invariant
            n == input@.len(),
            v@.len() == i,
            i <= n,
            forall|j: int| 0 <= j < i ==> v@[j] == input@[j],
        decreases n - i,
    {
        v.push(input[i]);
        i += 1;
    }
    assert(v@ =~= input@);
    v
}

/// Writes the transpose of `input`, a grid of `height` rows of `width` elements, to `output`.
pub fn transpose<A: Copy>(width: usize, height: usize, input: &[A], output: &mut [A])
    requires
        input@.len() == width * height,
        old(output)@.len() == input@.len(),
    ensures
        final(output)@ == transposed(width as nat, height as nat, input@),
{
    let ghost want = transposed(width as nat, height as nat, input@);
    let n = input.len();
    let mut x: usize = 0;
    while x < width
        invariant
            n == width * height,
            input@.len() == width * height,
            output@.len() == input@.len(),
            want == transposed(width as nat, height as nat, input@),
            x <= width,
            forall|k: int| 0 <= k < x * height ==> output@[k] == want[k],
        decreases width - x,
    {
        let mut y: usize = 0;
        proof {
            lemma_mul_is_distributive_add_other_way(height as int, x as int, 1);
            lemma_mul_inequality(x as int + 1, width as int, height as int);
        }
        while y < height
            invariant
                n == width * height,
                input@.len() == width * height,
                output@.len() == input@.len(),
                want == transposed(width as nat, height as nat, input@),
                x < width,
                y <= height,
                (x + 1) * height == x * height + height,
                (x + 1) * height <= width * height,
                0 <= x * height,
                forall|k: int| 0 <= k < x * height + y ==> output@[k] == want[k],
            decreases height - y,
        {
            proof {
                lemma_index_in_lane(height as nat, x as int, y as int);
                lemma_mul_is_distributive_add_other_way(width as int, y as int, 1);
                lemma_mul_inequality(y as int + 1, height as int, width as int);
                lemma_mul_is_commutative(height as int, width as int);
                lemma_mul_nonnegative(y as int, width as int);
            }
            let src = y * width + x;
            let dst = x * height + y;
            output[dst] = input[src];
            y += 1;
        }
        x += 1;
    }
    assert(output@ =~= want);
}

} // verus!

verus! {

/// Borrows the `n` elements from `start` on; the rest of the buffer stays as it is.
pub fn chunk_mut<A>(buffer: &mut [A], start: usize, n: usize) -> (chunk: &mut [A])
    requires
        start + n <= old(buffer)@.len(),
    ensures
        chunk@ == old(buffer)@.subrange(start as int, start + n),
        final(buffer)@ == old(buffer)@.subrange(0, start as int) + final(chunk)@ + old(
            buffer,
        )@.subrange(start + n, old(buffer)@.len() as int),
{
    let (head, tail) = buffer.split_at_mut(start);
    let ghost behind = tail@;
    let (chunk, rest) = tail.split_at_mut(n);
    assert(behind.subrange(0, n as int) =~= old(buffer)@.subrange(start as int, start + n));
    assert(behind.subrange(n as int, behind.len() as int) =~= old(buffer)@.subrange(
        start + n,
        old(buffer)@.len() as int,
    ));
    chunk
}

/// Borrows the `n` elements from `start` on.
pub fn chunk<A>(buffer: &[A], start: usize, n: usize) -> (chunk: &[A])
    requires
        start + n <= buffer@.len(),
    ensures
        chunk@ == buffer@.subrange(start as int, start + n),
{
    let len = buffer.len();
    assert(start + n <= len);
    vstd::slice::slice_subrange(buffer, start, start + n)
}

/// After one lane of a buffer was replaced, the lanes before it and the elements behind it
/// are what they were.
pub proof fn lemma_lane_replaced<A>(before: Seq<A>, after: Seq<A>, n: nat, m: int, new_lane: Seq<A>)
    requires
        n > 0,
        0 <= m,
        (m + 1) * n <= before.len(),
        new_lane.len() == n,
        after == before.subrange(0, m * n) + new_lane + before.subrange(
            (m + 1) * n,
            before.len() as int,
        ),
    ensures
        after.len() == before.len(),
        lane(after, n, m) == new_lane,
        forall|i: int| 0 <= i < m ==> #[trigger] lane(after, n, i) == lane(before, n, i),
        forall|k: int| (m + 1) * n <= k < before.len() ==> after[k] == before[k],
{
    lemma_mul_is_distributive_add_other_way(n as int, m, 1);
    lemma_mul_nonnegative(m, n as int);
    assert(lane(after, n, m) =~= new_lane);
    assert forall|i: int| 0 <= i < m implies #[trigger] lane(after, n, i) == lane(before, n, i) by {
        lemma_mul_is_distributive_add_other_way(n as int, i, 1);
        lemma_mul_nonnegative(i, n as int);
        lemma_mul_inequality(i + 1, m, n as int);
        assert(lane(after, n, i) =~= lane(before, n, i));
    }
}

} // verus!
