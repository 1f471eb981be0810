use vstd::prelude::*;

verus! {

/// The chunk width the partitioner works with: the ceiling of the identifier
/// count divided by the lane count.
pub open spec fn chunk_width(k: int, lanes: int) -> int
    recommends
        lanes >= 1,
{
    k / lanes + if k % lanes == 0 {
        0int
    } else {
        1int
    }
}

/// Where the boundary in front of lane i falls: i chunk widths into the
/// identifier sequence, clamped to its length.
pub open spec fn chunk_bound(k: int, width: int, i: int) -> int {
    if i * width < k {
        i * width
    } else {
        k
    }
}

/// The chunk sequences a vector of chunks stands for.
pub open spec fn views_of(chunks: Seq<Vec<u64>>) -> Seq<Seq<u64>> {
    chunks.map_values(|c: Vec<u64>| c@)
}

proof fn lemma_next_bound(k: int, w: int, i: int)
    requires
        k >= 0,
        w >= 0,
        i >= 0,
    ensures
        chunk_bound(k, w, i + 1) == if k - chunk_bound(k, w, i) < w {
            k
        } else {
            chunk_bound(k, w, i) + w
        },
        chunk_bound(k, w, i) <= chunk_bound(k, w, i + 1) <= k,
        chunk_bound(k, w, 0) == 0,
{
    assert((i + 1) * w == i * w + w) by (nonlinear_arith);
    assert(i * w >= 0) by (nonlinear_arith)
        requires
            i >= 0 && w >= 0,
    ;
    assert(0 * w == 0) by (nonlinear_arith);
}

proof fn lemma_bound_mono(k: int, w: int, i: int, j: int)
    requires
        k >= 0,
        w >= 0,
        0 <= i <= j,
    ensures
        chunk_bound(k, w, i) <= chunk_bound(k, w, j),
{
    assert(i * w <= j * w) by (nonlinear_arith)
        requires
            0 <= i <= j && w >= 0,
    ;
}

/// The whole identifier sequence is covered: lane-count many widths reach its
/// end.
proof fn lemma_width_covers(k: int, lanes: int)
    requires
        k >= 0,
        lanes >= 1,
    ensures
        lanes * chunk_width(k, lanes) >= k,
        chunk_bound(k, chunk_width(k, lanes), lanes) == k,
{
    let q = k / lanes;
    let r = k % lanes;
    vstd::arithmetic::div_mod::lemma_fundamental_div_mod(k, lanes);
    vstd::arithmetic::div_mod::lemma_mod_bound(k, lanes);
    assert(k == lanes * q + r && 0 <= r < lanes);
    if r == 0 {
        assert(lanes * q == q * lanes) by (nonlinear_arith);
    } else {
        assert(lanes * (q + 1) == q * lanes + lanes) by (nonlinear_arith);
    }
}

/// Split an ordered identifier set into exactly `lanes` contiguous chunks of
/// the ceiling width, the last chunk holding whatever remains (possibly
/// nothing): a pure function of the ordered input and the lane count.
pub fn partition(ids: &Vec<u64>, lanes: usize) -> (chunks: Vec<Vec<u64>>)
    requires
        lanes >= 1,
    ensures
        chunks@.len() == lanes as int,
        forall|i: int|
            0 <= i < lanes as int ==> (#[trigger] chunks@[i])@ == ids@.subrange(
                chunk_bound(ids@.len() as int, chunk_width(ids@.len() as int, lanes as int), i),
                chunk_bound(
                    ids@.len() as int,
                    chunk_width(ids@.len() as int, lanes as int),
                    i + 1,
                ),
            ),
        views_of(chunks@).flatten() == ids@,
{
    let k = ids.len();
    let width: usize = if k % lanes != 0 {
        proof {
            assert(lanes >= 2) by {
                assert(k as int % 1int == 0) by (nonlinear_arith);
            }
            assert((k as int) / (lanes as int) < (usize::MAX as int)) by (nonlinear_arith)
                requires
                    (lanes as int) >= 2 && 0 <= (k as int) <= (usize::MAX as int),
            ;
        }
        k / lanes + 1
    } else {
        k / lanes
    };
    let ghost kk = k as int;
    let ghost w = width as int;
    proof {
        assert(w == chunk_width(kk, lanes as int));
        assert(chunk_bound(kk, w, 0) == 0) by {
            lemma_next_bound(kk, w, 0);
        }
        assert(views_of(Seq::<Vec<u64>>::empty()).flatten() =~= ids@.take(0)) by {
            assert(views_of(Seq::<Vec<u64>>::empty()) =~= Seq::<Seq<u64>>::empty());
        }
    }
    let mut chunks: Vec<Vec<u64>> = Vec::new();
    let mut lo: usize = 0;
    let mut lane_i: usize = 0;
    while lane_i < lanes
        invariant
            lanes >= 1,
            k == ids@.len(),
            kk == k as int,
            w == width as int,
            w == chunk_width(kk, lanes as int),
            lane_i <= lanes,
            lo <= k,
            chunks@.len() == lane_i as int,
            lo as int == chunk_bound(kk, w, lane_i as int),
            forall|i: int|
                0 <= i < lane_i as int ==> (#[trigger] chunks@[i])@ == ids@.subrange(
                    chunk_bound(kk, w, i),
                    chunk_bound(kk, w, i + 1),
                ),
            views_of(chunks@).flatten() == ids@.take(lo as int),
        decreases lanes - lane_i,
    {
        let remaining = k - lo;
        let step = if remaining < width {
            remaining
        } else {
            width
        };
        let hi = lo + step;
        proof {
            lemma_next_bound(kk, w, lane_i as int);
            assert(hi as int == chunk_bound(kk, w, lane_i as int + 1));
        }
        let mut chunk: Vec<u64> = Vec::new();
        let mut j = lo;
        proof {
            assert(chunk@ =~= ids@.subrange(lo as int, lo as int));
        }
        while j < hi
            invariant
                lo <= j <= hi,
                hi <= k,
                k == ids@.len(),
                chunk@ == ids@.subrange(lo as int, j as int),
            decreases hi - j,
        {
            chunk.push(ids[j]);
            proof {
                assert(chunk@ =~= ids@.subrange(lo as int, j as int + 1));
            }
            j = j + 1;
        }
        let ghost prior = chunks@;
        proof {
            views_of(prior).lemma_flatten_push(chunk@);
            assert(views_of(prior.push(chunk)) =~= views_of(prior).push(chunk@));
            assert(ids@.take(lo as int) + ids@.subrange(lo as int, hi as int) =~= ids@.take(
                hi as int,
            ));
        }
        chunks.push(chunk);
        proof {
            assert(views_of(chunks@).flatten() == ids@.take(hi as int));
        }
        lo = hi;
        lane_i = lane_i + 1;
    }
    proof {
        lemma_width_covers(kk, lanes as int);
        assert(lo as int == kk);
        assert(ids@.take(kk) =~= ids@);
    }
    chunks
}

/// The decomposition law of the partitioner: the chunks never share an
/// identifier, and together they hold exactly the identifiers handed in, so
/// their disjoint union is the input set.
pub proof fn lemma_partition_disjoint_union(chunks: Seq<Seq<u64>>, ids: Seq<u64>, lanes: int)
    requires
        lanes >= 1,
        ids.no_duplicates(),
        chunks.len() == lanes,
        forall|i: int|
            0 <= i < lanes ==> #[trigger] chunks[i] == ids.subrange(
                chunk_bound(ids.len() as int, chunk_width(ids.len() as int, lanes), i),
                chunk_bound(ids.len() as int, chunk_width(ids.len() as int, lanes), i + 1),
            ),
        chunks.flatten() == ids,
    ensures
        forall|a: int, b: int, x: u64|
            0 <= a < b < lanes && #[trigger] chunks[a].contains(x) ==> !(#[trigger] chunks[b].contains(
                x,
            )),
        chunks.flatten().to_set() == ids.to_set(),
{
    let k = ids.len() as int;
    let w = chunk_width(k, lanes);
    assert(w >= 0) by {
        assert(k / lanes >= 0) by (nonlinear_arith)
            requires
                k >= 0 && lanes >= 1,
        ;
    }
    assert forall|a: int, b: int, x: u64|
        0 <= a < b < lanes && #[trigger] chunks[a].contains(x) implies !(#[trigger] chunks[b].contains(
        x,
    )) by {
        if chunks[b].contains(x) {
            let ia = choose|t: int| 0 <= t < chunks[a].len() && chunks[a][t] == x;
            let ib = choose|t: int| 0 <= t < chunks[b].len() && chunks[b][t] == x;
            lemma_next_bound(k, w, a);
            lemma_next_bound(k, w, b);
            lemma_bound_mono(k, w, a + 1, b);
            let pa = chunk_bound(k, w, a) + ia;
            let pb = chunk_bound(k, w, b) + ib;
            assert(ids[pa] == x);
            assert(ids[pb] == x);
            assert(pa < chunk_bound(k, w, a + 1) <= chunk_bound(k, w, b) <= pb);
        }
    }
}

/// The balance law of the partitioner: wherever the widths fit the
/// identifier count (every lane in front of the remainder lane starts within
/// one position of the sequence end at worst), the sizes of any two chunks
/// other than the trailing remainder chunk differ by at most one.
pub proof fn lemma_partition_balanced(chunks: Seq<Seq<u64>>, ids: Seq<u64>, lanes: int)
    requires
        lanes >= 1,
        chunks.len() == lanes,
        forall|i: int|
            0 <= i < lanes ==> #[trigger] chunks[i] == ids.subrange(
                chunk_bound(ids.len() as int, chunk_width(ids.len() as int, lanes), i),
                chunk_bound(ids.len() as int, chunk_width(ids.len() as int, lanes), i + 1),
            ),
        (lanes - 1) * chunk_width(ids.len() as int, lanes) <= ids.len() + 1,
    ensures
        forall|a: int, b: int|
            0 <= a < lanes - 1 && 0 <= b < lanes - 1 ==> (#[trigger] chunks[a]).len()
                <= (#[trigger] chunks[b]).len() + 1,
{
    let k = ids.len() as int;
    let w = chunk_width(k, lanes);
    assert(w >= 0) by {
        assert(k / lanes >= 0) by (nonlinear_arith)
            requires
                k >= 0 && lanes >= 1,
        ;
    }
    assert forall|i: int| 0 <= i < lanes - 1 implies w - 1 <= (#[trigger] chunks[i]).len()
        <= w by {
        lemma_next_bound(k, w, i);
        assert(i * w <= (lanes - 1) * w - w && (i + 1) * w <= (lanes - 1) * w)
            by (nonlinear_arith)
            requires
                0 <= i < lanes - 1 && w >= 0,
        ;
        if w == 0 {
        } else {
            assert(i * w <= k);
            assert(chunk_bound(k, w, i) == i * w);
            assert((i + 1) * w == i * w + w) by (nonlinear_arith);
        }
    }
}

} // verus!
