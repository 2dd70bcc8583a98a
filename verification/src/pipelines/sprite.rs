//! The sprite batch pipeline: turns an unordered stream of
//! (transform, sprite) components into a texture-grouped instance buffer
//! and the minimal list of draw spans, under an amortised-doubling growth
//! policy for the instance buffer and a never-evicting bind-group cache
//! keyed by texture handle.

use crate::components::{camera_bytes, encode_record, record_bytes, CameraData, Sprite, Transform};
use crate::handles::KeyedCache;
use crate::renderer::Resources;
use vstd::arithmetic::power2::pow2;
use vstd::prelude::*;

verus! {

/// Bytes of one instance record: the per-instance vertex stride.
pub const STRIDE: u64 = 64;

/// A contiguous run of instances in the batched buffer that share one
/// texture, drawn with a single instanced draw call. `end` is inclusive.
#[derive(Clone, Copy, Debug, PartialEq, Eq, Structural)]
pub struct DrawSpan {
    pub start: u32,
    pub end: u32,
    pub texture: u64,
}

/// The capacity an amortised-doubling buffer reaches from `cap` to hold
/// `need` bytes: `cap` itself if it already suffices, else the first
/// repeated doubling of `cap` that does.
pub open spec fn grow_spec(cap: int, need: int) -> int
    decreases (if need - cap > 0 { need - cap } else { 0 }) when 1 <= cap
{
    if need <= cap {
        cap
    } else {
        grow_spec(cap * 2, need)
    }
}

/// The doubling policy only grows, reaches the requirement, multiplies
/// the capacity by a power of two, and overshoots the requirement by
/// less than a factor of two.
pub proof fn lemma_grow_spec(cap: int, need: int)
    requires
        1 <= cap,
    ensures
        grow_spec(cap, need) >= cap,
        grow_spec(cap, need) >= need,
        exists|k: nat| grow_spec(cap, need) == cap * pow2(k),
        need > cap ==> grow_spec(cap, need) < 2 * need,
    decreases (if need - cap > 0 { need - cap } else { 0 }),
{
    vstd::arithmetic::power2::lemma2_to64();
    if need <= cap {
        assert(cap * pow2(0) == cap);
        assert(grow_spec(cap, need) == cap * pow2(0));
    } else {
        lemma_grow_spec(cap * 2, need);
        let k = choose|k: nat| grow_spec(cap * 2, need) == (cap * 2) * pow2(k);
        assert((cap * 2) * pow2(k) == cap * (2 * pow2(k))) by (nonlinear_arith);
        assert(pow2(k + 1) == 2 * pow2(k)) by {
            vstd::arithmetic::power2::lemma_pow2_unfold(k + 1);
        }
        assert(grow_spec(cap, need) == cap * pow2(k + 1));
        if need <= cap * 2 {
            assert(cap * 2 < 2 * need);
        }
    }
}

/// The capacity after a batch of `count` instances has been sized: kept
/// when sufficient, otherwise doubled until it holds `count * STRIDE`
/// bytes.
pub open spec fn grown_capacity(cap: u64, count: u64) -> int {
    if count * STRIDE <= cap {
        cap as int
    } else {
        grow_spec(cap as int, count * STRIDE)
    }
}

/// Whether some component in the stream uses texture `t`.
pub open spec fn has_texture(s: Seq<(Transform, Sprite)>, t: u64) -> bool {
    exists|i: int| 0 <= i < s.len() && #[trigger] s[i].1.texture == t
}

/// The components of the stream that use texture `t`, in stream order.
pub open spec fn with_texture(s: Seq<(Transform, Sprite)>, t: u64) -> Seq<(Transform, Sprite)> {
    s.filter(|p: (Transform, Sprite)| p.1.texture == t)
}

/// The stream is ordered by ascending texture handle.
pub open spec fn sorted_by_texture(s: Seq<(Transform, Sprite)>) -> bool {
    forall|i: int, j: int| 0 <= i <= j < s.len() ==> (#[trigger] s[i].1.texture)
        <= (#[trigger] s[j].1.texture)
}

/// `b` rearranges `a` without disturbing the relative order of any two
/// components that share a texture: for every texture the runs agree
/// element for element. This pins the stable sort down completely.
pub open spec fn stable_reordering(
    a: Seq<(Transform, Sprite)>,
    b: Seq<(Transform, Sprite)>,
) -> bool {
    forall|t: u64| #[trigger] with_texture(a, t) == with_texture(b, t)
}

/// The texture handle of each component, in stream order.
pub open spec fn texes_of(s: Seq<(Transform, Sprite)>) -> Seq<u64> {
    s.map_values(|p: (Transform, Sprite)| p.1.texture)
}

/// The staging bytes of a whole batch: the 64-byte records of the
/// components, concatenated in order.
pub open spec fn batch_bytes(s: Seq<(Transform, Sprite)>) -> Seq<u8>
    decreases s.len(),
{
    if s.len() == 0 {
        Seq::empty()
    } else {
        batch_bytes(s.drop_last()) + record_bytes(s.last().0, s.last().1.data)
    }
}

/// A batch of `n` components stages exactly `n * STRIDE` bytes.
pub proof fn lemma_batch_bytes_len(s: Seq<(Transform, Sprite)>)
    ensures
        batch_bytes(s).len() == s.len() * 64,
    decreases s.len(),
{
    if s.len() > 0 {
        lemma_batch_bytes_len(s.drop_last());
    }
}

/// The run for `t` is empty when no component uses `t`.
proof fn lemma_with_texture_none(s: Seq<(Transform, Sprite)>, t: u64)
    requires
        forall|i: int| 0 <= i < s.len() ==> (#[trigger] s[i].1.texture) != t,
    ensures
        with_texture(s, t) == Seq::<(Transform, Sprite)>::empty(),
    decreases s.len(),
{
    reveal(Seq::filter);
    if s.len() > 0 {
        lemma_with_texture_none(s.drop_last(), t);
    }
}

/// The run for `t` is the whole stream when every component uses `t`.
proof fn lemma_with_texture_all(s: Seq<(Transform, Sprite)>, t: u64)
    requires
        forall|i: int| 0 <= i < s.len() ==> (#[trigger] s[i].1.texture) == t,
    ensures
        with_texture(s, t) == s,
    decreases s.len(),
{
    reveal(Seq::filter);
    if s.len() > 0 {
        lemma_with_texture_all(s.drop_last(), t);
        assert(s.drop_last().push(s.last()) =~= s);
    }
}

/// Every component of a run uses the run's texture and occurs in the
/// source stream.
proof fn lemma_with_texture_elements(s: Seq<(Transform, Sprite)>, t: u64)
    ensures
        forall|i: int|
            0 <= i < with_texture(s, t).len() ==> (#[trigger] with_texture(s, t)[i]).1.texture
                == t && s.contains(with_texture(s, t)[i]),
    decreases s.len(),
{
    reveal(Seq::filter);
    if s.len() > 0 {
        lemma_with_texture_elements(s.drop_last(), t);
        assert forall|i: int| 0 <= i < with_texture(s, t).len() implies (#[trigger] with_texture(
            s,
            t,
        )[i]).1.texture == t && s.contains(with_texture(s, t)[i]) by {
            let sub = with_texture(s.drop_last(), t);
            if i < sub.len() {
                assert(with_texture(s, t)[i] == sub[i]);
                let j = choose|j: int|
                    0 <= j < s.drop_last().len() && s.drop_last()[j] == sub[i];
                assert(s[j] == sub[i]);
            } else {
                assert(with_texture(s, t)[i] == s.last());
                assert(s[s.len() - 1] == s.last());
            }
        }
    }
}

/// The per-texture runs of the concatenation of two streams.
proof fn lemma_with_texture_add(
    a: Seq<(Transform, Sprite)>,
    b: Seq<(Transform, Sprite)>,
    t: u64,
)
    ensures
        with_texture(a + b, t) == with_texture(a, t) + with_texture(b, t),
{
    broadcast use Seq::filter_distributes_over_add;

}

/// The run of a single component: itself if the texture matches, empty
/// otherwise.
proof fn lemma_with_texture_single(x: (Transform, Sprite), t: u64)
    ensures
        x.1.texture == t ==> with_texture(seq![x], t) == seq![x],
        x.1.texture != t ==> with_texture(seq![x], t) == Seq::<(Transform, Sprite)>::empty(),
{
    if x.1.texture == t {
        lemma_with_texture_all(seq![x], t);
    } else {
        lemma_with_texture_none(seq![x], t);
    }
}

/// The batch in grouped order: for each key in turn, the components that
/// use it, in stream order.
pub open spec fn groups_concat(
    data: Seq<(Transform, Sprite)>,
    keys: Seq<u64>,
) -> Seq<(Transform, Sprite)>
    decreases keys.len(),
{
    if keys.len() == 0 {
        Seq::empty()
    } else {
        groups_concat(data, keys.drop_last()) + with_texture(data, keys.last())
    }
}
///
/// `bind_groups` caches one GPU bind group per distinct texture handle
/// ever drawn, created lazily and never evicted. `vertex_buffer_data` is
/// the host-side mirror of the instance buffer, rebuilt every `prepare`;
/// `vertex_buffer_size` is the GPU buffer's capacity in bytes, which only
/// ever grows, by doubling. `draw_instances` is the span list of the last
/// prepared batch.
/// Grouping an empty stream yields an empty batch.
proof fn lemma_groups_concat_empty(keys: Seq<u64>)
    ensures
        groups_concat(Seq::empty(), keys).len() == 0,
    decreases keys.len(),
{
    if keys.len() > 0 {
        lemma_groups_concat_empty(keys.drop_last());
        lemma_with_texture_none(Seq::empty(), keys.last());
    }
}

/// A grouped batch keeps exactly the per-texture runs of its stream:
/// the run of every grouped key is preserved, and no other texture
/// appears.
proof fn lemma_groups_concat_filter(data: Seq<(Transform, Sprite)>, keys: Seq<u64>, t: u64)
    requires
        keys.no_duplicates(),
    ensures
        with_texture(groups_concat(data, keys), t) == if keys.contains(t) {
            with_texture(data, t)
        } else {
            Seq::<(Transform, Sprite)>::empty()
        },
    decreases keys.len(),
{
    if keys.len() == 0 {
        lemma_with_texture_none(Seq::empty(), t);
    } else {
        let kd = keys.drop_last();
        let k = keys.last();
        lemma_groups_concat_filter(data, kd, t);
        lemma_with_texture_add(groups_concat(data, kd), with_texture(data, k), t);
        lemma_with_texture_elements(data, k);
        if kd.contains(t) {
            let i = choose|i: int| 0 <= i < kd.len() && kd[i] == t;
            assert(keys[i] == t);
        }
        if k == t {
            lemma_with_texture_all(with_texture(data, k), t);
            assert(keys[keys.len() - 1] == t);
            assert(!kd.contains(t)) by {
                if kd.contains(t) {
                    let i = choose|i: int| 0 <= i < kd.len() && kd[i] == t;
                    assert(keys[i] == keys[keys.len() - 1]);
                }
            }
            assert(Seq::<(Transform, Sprite)>::empty() + with_texture(data, t) =~= with_texture(
                data,
                t,
            ));
        } else {
            lemma_with_texture_none(with_texture(data, k), t);
            if keys.contains(t) {
                let i = choose|i: int| 0 <= i < keys.len() && keys[i] == t;
                if i < keys.len() - 1 {
                    assert(kd[i] == t);
                }
            }
            assert(with_texture(groups_concat(data, kd), t) + Seq::<(Transform, Sprite)>::empty()
                =~= with_texture(groups_concat(data, kd), t));
        }
    }
}

/// Grouping by strictly ascending keys yields a texture-sorted batch,
/// every component of which uses one of the keys.
proof fn lemma_groups_concat_sorted(data: Seq<(Transform, Sprite)>, keys: Seq<u64>)
    requires
        forall|i: int, j: int| 0 <= i < j < keys.len() ==> #[trigger] keys[i] < #[trigger] keys[j],
    ensures
        sorted_by_texture(groups_concat(data, keys)),
        forall|i: int|
            0 <= i < groups_concat(data, keys).len() ==> keys.contains(
                (#[trigger] groups_concat(data, keys)[i]).1.texture,
            ),
    decreases keys.len(),
{
    if keys.len() > 0 {
        let kd = keys.drop_last();
        let k = keys.last();
        let gd = groups_concat(data, kd);
        let run = with_texture(data, k);
        let g = groups_concat(data, keys);
        lemma_groups_concat_sorted(data, kd);
        lemma_with_texture_elements(data, k);
        assert forall|i: int| 0 <= i < g.len() implies keys.contains(
            (#[trigger] g[i]).1.texture,
        ) by {
            if i < gd.len() {
                assert(g[i] == gd[i]);
                let j = choose|j: int| 0 <= j < kd.len() && kd[j] == gd[i].1.texture;
                assert(keys[j] == gd[i].1.texture);
            } else {
                assert(g[i] == run[i - gd.len()]);
                assert(keys[keys.len() - 1] == k);
            }
        }
        assert forall|i: int, j: int| 0 <= i <= j < g.len() implies (#[trigger] g[i].1.texture)
            <= (#[trigger] g[j].1.texture) by {
            if j < gd.len() {
            } else if i >= gd.len() {
                assert(g[i] == run[i - gd.len()]);
                assert(g[j] == run[j - gd.len()]);
            } else {
                assert(g[i] == gd[i]);
                assert(g[j] == run[j - gd.len()]);
                let p = choose|p: int| 0 <= p < kd.len() && kd[p] == gd[i].1.texture;
                assert(keys[p] == gd[i].1.texture);
                assert(keys[p] < keys[keys.len() - 1]);
            }
        }
    }
}

/// Appending one component to the stream grows the grouped batch by one
/// exactly when some key matches its texture.
proof fn lemma_groups_concat_push(
    d: Seq<(Transform, Sprite)>,
    x: (Transform, Sprite),
    keys: Seq<u64>,
)
    requires
        keys.no_duplicates(),
    ensures
        groups_concat(d.push(x), keys).len() == groups_concat(d, keys).len() + if keys.contains(
            x.1.texture,
        ) {
            1int
        } else {
            0int
        },
    decreases keys.len(),
{
    if keys.len() == 0 {
        assert(!keys.contains(x.1.texture));
    } else {
        let kd = keys.drop_last();
        let k = keys.last();
        lemma_groups_concat_push(d, x, kd);
        assert(d.push(x) =~= d + seq![x]);
        lemma_with_texture_add(d, seq![x], k);
        lemma_with_texture_single(x, k);
        assert(keys[keys.len() - 1] == k);
        if kd.contains(x.1.texture) {
            let i = choose|i: int| 0 <= i < kd.len() && kd[i] == x.1.texture;
            assert(keys[i] == x.1.texture);
            assert(k != x.1.texture) by {
                if k == x.1.texture {
                    assert(keys[i] == keys[keys.len() - 1]);
                }
            }
        } else if keys.contains(x.1.texture) {
            let i = choose|i: int| 0 <= i < keys.len() && keys[i] == x.1.texture;
            if i < keys.len() - 1 {
                assert(kd[i] == x.1.texture);
            }
        }
    }
}

/// When distinct keys cover every texture in use, grouping loses and
/// duplicates nothing: the grouped batch has the stream's length.
proof fn lemma_groups_concat_len(data: Seq<(Transform, Sprite)>, keys: Seq<u64>)
    requires
        keys.no_duplicates(),
        forall|i: int| 0 <= i < data.len() ==> keys.contains((#[trigger] data[i]).1.texture),
    ensures
        groups_concat(data, keys).len() == data.len(),
    decreases data.len(),
{
    if data.len() == 0 {
        assert(data =~= Seq::<(Transform, Sprite)>::empty());
        lemma_groups_concat_empty(keys);
    } else {
        let d = data.drop_last();
        let x = data.last();
        lemma_groups_concat_len(d, keys);
        lemma_groups_concat_push(d, x, keys);
        assert(d.push(x) =~= data);
        assert(keys.contains(data[data.len() - 1].1.texture));
    }
}

fn vec_contains_u64(v: &Vec<u64>, x: u64) -> (r: bool)
    ensures
        r == v@.contains(x),
{
    let mut i: usize = 0;
    while i < v.len()
        invariant
            i <= v@.len(),
            forall|j: int| 0 <= j < i ==> v@[j] != x,
        decreases v@.len() - i,
    {
        if v[i] == x {
            proof {
                assert(v@[i as int] == x);
            }
            return true;
        }
        i += 1;
    }
    false
}

/// Collects the distinct texture handles of a component stream, in first
/// appearance order.
fn collect_keys(data: &Vec<(Transform, Sprite)>) -> (keys: Vec<u64>)
    ensures
        keys@.no_duplicates(),
        forall|t: u64| keys@.contains(t) <==> has_texture(data@, t),
{
    let mut keys: Vec<u64> = Vec::new();
    let mut i: usize = 0;
    while i < data.len()
        invariant
            i <= data@.len(),
            keys@.no_duplicates(),
            forall|t: u64| keys@.contains(t) <==> has_texture(data@.take(i as int), t),
        decreases data@.len() - i,
    {
        let ghost prev = keys@;
        let t = data[i].1.texture;
        if !vec_contains_u64(&keys, t) {
            keys.push(t);
            proof {
                assert forall|y: u64| keys@.contains(y) implies prev.contains(y) || y == t by {
                    let j = choose|j: int| 0 <= j < keys@.len() && keys@[j] == y;
                    if j < prev.len() {
                        assert(prev[j] == y);
                    }
                }
                assert(forall|j: int| 0 <= j < prev.len() ==> keys@[j] == prev[j]);
                assert(keys@[keys@.len() - 1] == t);
            }
        }
        proof {
            let di = i as int;
            assert(data@.take(di + 1).drop_last() =~= data@.take(di));
            assert(data@.take(di + 1).last() == data@[di]);
            assert forall|y: u64| has_texture(data@.take(di + 1), y) implies keys@.contains(
                y,
            ) by {
                let j = choose|j: int|
                    0 <= j < data@.take(di + 1).len() && (#[trigger] data@.take(di + 1)[j].1.texture)
                        == y;
                if j < di {
                    assert(data@.take(di)[j].1.texture == y);
                    assert(has_texture(data@.take(di), y));
                    assert(prev.contains(y));
                    let w = choose|w: int| 0 <= w < prev.len() && prev[w] == y;
                    assert(keys@[w] == y);
                } else {
                    assert(data@.take(di + 1)[di] == data@[di]);
                    assert(y == t);
                }
            }
            assert forall|y: u64| keys@.contains(y) implies has_texture(data@.take(di + 1), y) by {
                if has_texture(data@.take(di), y) {
                    let j = choose|j: int|
                        0 <= j < data@.take(di).len() && (#[trigger] data@.take(di)[j].1.texture)
                            == y;
                    assert(data@.take(di + 1)[j].1.texture == y);
                } else {
                    assert(!prev.contains(y));
                    let j = choose|j: int| 0 <= j < keys@.len() && keys@[j] == y;
                    if j < prev.len() {
                        assert(keys@[j] == prev[j]);
                        assert(prev.contains(y));
                    } else {
                        assert(y == t);
                    }
                    assert(y == t);
                    assert(data@.take(di + 1)[di].1.texture == t);
                }
            }
        }
        i += 1;
    }
    proof {
        assert(data@.take(data@.len() as int) =~= data@);
    }
    keys
}

/// Sorts distinct keys into strictly ascending order.
fn sort_keys(keys: &Vec<u64>) -> (r: Vec<u64>)
    requires
        keys@.no_duplicates(),
    ensures
        r@.len() == keys@.len(),
        forall|i: int, j: int| 0 <= i < j < r@.len() ==> #[trigger] r@[i] < #[trigger] r@[j],
        forall|t: u64| r@.contains(t) <==> keys@.contains(t),
{
    let mut out: Vec<u64> = Vec::new();
    let mut i: usize = 0;
    while i < keys.len()
        invariant
            i <= keys@.len(),
            out@.len() == i,
            keys@.no_duplicates(),
            forall|p: int, q: int| 0 <= p < q < out@.len() ==> #[trigger] out@[p]
                < #[trigger] out@[q],
            forall|t: u64| out@.contains(t) <==> keys@.take(i as int).contains(t),
        decreases keys@.len() - i,
    {
        let k = keys[i];
        proof {
            assert(!out@.contains(k)) by {
                if out@.contains(k) {
                    let j = choose|j: int|
                        0 <= j < keys@.take(i as int).len() && keys@.take(i as int)[j] == k;
                    assert(keys@[j] == keys@[i as int]);
                }
            }
        }
        let mut pos: usize = 0;
        while pos < out.len() && out[pos] < k
            invariant
                pos <= out@.len(),
                forall|j: int| 0 <= j < pos ==> #[trigger] out@[j] < k,
            decreases out@.len() - pos,
        {
            pos += 1;
        }
        let ghost prev = out@;
        out.insert(pos, k);
        proof {
            prev.insert_ensures(pos as int, k);
            let po = pos as int;
            assert forall|p: int, q: int|
                0 <= p < q < out@.len() implies #[trigger] out@[p] < #[trigger] out@[q] by {
                let a = if p < po {
                    prev[p]
                } else if p == po {
                    k
                } else {
                    prev[p - 1]
                };
                let b = if q < po {
                    prev[q]
                } else if q == po {
                    k
                } else {
                    prev[q - 1]
                };
                assert(out@[p] == a);
                assert(out@[q] == b);
                if p == po && q > po {
                    assert(prev[q - 1] != k);
                    assert(po < out@.len() - 1 ==> prev[po] >= k);
                    assert(prev[po] <= prev[q - 1]);
                } else if q == po && p < po {
                    assert(prev[p] < k);
                }
            }
            assert forall|t: u64| out@.contains(t) implies keys@.take(i as int + 1).contains(
                t,
            ) by {
                let j = choose|j: int| 0 <= j < out@.len() && out@[j] == t;
                if j != po {
                    let jj = if j < po {
                        j
                    } else {
                        j - 1
                    };
                    assert(prev[jj] == t);
                    assert(prev.contains(t));
                    let w = choose|w: int|
                        0 <= w < keys@.take(i as int).len() && #[trigger] keys@.take(
                            i as int,
                        )[w] == t;
                    assert(keys@.take(i as int + 1)[w] == keys@[w]);
                    assert(keys@.take(i as int + 1)[w] == t);
                } else {
                    assert(keys@.take(i as int + 1)[i as int] == k);
                }
            }
            assert forall|t: u64| keys@.take(i as int + 1).contains(t) implies out@.contains(
                t,
            ) by {
                let w = choose|w: int|
                    0 <= w < keys@.take(i as int + 1).len() && #[trigger] keys@.take(
                        i as int + 1,
                    )[w] == t;
                if w < i as int {
                    assert(keys@.take(i as int)[w] == t);
                    assert(keys@.take(i as int).contains(t));
                    assert(prev.contains(t));
                    let j = choose|j: int| 0 <= j < prev.len() && prev[j] == t;
                    if j < po {
                        assert(out@[j] == t);
                    } else {
                        assert(out@[j + 1] == t);
                    }
                } else {
                    assert(t == k);
                    assert(out@[po] == k);
                }
            }
        }
        i += 1;
    }
    proof {
        assert(keys@.take(keys@.len() as int) =~= keys@);
    }
    out
}

/// Stable-sorts a component stream by ascending texture handle; the
/// relative order of components sharing a texture is the stream order.
/// This is exactly the grouping that makes contiguous draw spans
/// possible.
pub fn sort_by_texture(data: &Vec<(Transform, Sprite)>) -> (r: Vec<(Transform, Sprite)>)
    ensures
        r@.len() == data@.len(),
        sorted_by_texture(r@),
        stable_reordering(data@, r@),
{
    let keys = collect_keys(data);
    let keys = sort_keys(&keys);
    let mut out: Vec<(Transform, Sprite)> = Vec::new();
    let mut ki: usize = 0;
    while ki < keys.len()
        invariant
            ki <= keys@.len(),
            forall|p: int, q: int| 0 <= p < q < keys@.len() ==> #[trigger] keys@[p]
                < #[trigger] keys@[q],
            forall|t: u64| keys@.contains(t) <==> has_texture(data@, t),
            out@ == groups_concat(data@, keys@.take(ki as int)),
        decreases keys@.len() - ki,
    {
        let k = keys[ki];
        let ghost out_base = out@;
        let mut j: usize = 0;
        while j < data.len()
            invariant
                j <= data@.len(),
                out@ == out_base + with_texture(data@.take(j as int), k),
            decreases data@.len() - j,
        {
            let ghost before = out@;
            let pair = data[j];
            if pair.1.texture == k {
                out.push(pair);
            }
            proof {
                let dj = j as int;
                assert(data@.take(dj + 1) =~= data@.take(dj) + seq![data@[dj]]);
                lemma_with_texture_add(data@.take(dj), seq![data@[dj]], k);
                lemma_with_texture_single(data@[dj], k);
                if data@[dj].1.texture == k {
                    assert(out@ =~= before + seq![data@[dj]]);
                    assert(out@ =~= out_base + (with_texture(data@.take(dj), k) + seq![
                        data@[dj],
                    ]));
                } else {
                    assert(with_texture(data@.take(dj + 1), k) =~= with_texture(
                        data@.take(dj),
                        k,
                    ));
                }
            }
            j += 1;
        }
        proof {
            let kii = ki as int;
            assert(data@.take(data@.len() as int) =~= data@);
            assert(keys@.take(kii + 1).drop_last() =~= keys@.take(kii));
            assert(keys@.take(kii + 1).last() == keys@[kii]);
            assert(groups_concat(data@, keys@.take(kii + 1)) == groups_concat(
                data@,
                keys@.take(kii),
            ) + with_texture(data@, keys@[kii]));
        }
        ki += 1;
    }
    proof {
        assert(keys@.take(keys@.len() as int) =~= keys@);
        assert(keys@.no_duplicates());
        lemma_groups_concat_sorted(data@, keys@);
        assert forall|i: int| 0 <= i < data@.len() implies keys@.contains(
            (#[trigger] data@[i]).1.texture,
        ) by {
            assert(data@[i].1.texture == data@[i].1.texture && 0 <= i < data@.len());
            assert(has_texture(data@, data@[i].1.texture));
        }
        lemma_groups_concat_len(data@, keys@);
        assert forall|t: u64| #[trigger] with_texture(data@, t) == with_texture(out@, t) by {
            lemma_groups_concat_filter(data@, keys@, t);
            if !keys@.contains(t) {
                assert(!has_texture(data@, t));
                lemma_with_texture_none(data@, t);
            }
        }
    }
    out
}

/// The spans cut `[0, n)` into consecutive pieces: the first starts at
/// instance 0, each next span starts right after its predecessor ends,
/// and the last ends at instance `n - 1` — no gaps, no overlaps. An
/// empty batch has no spans at all.
pub open spec fn spans_partition(spans: Seq<DrawSpan>, n: int) -> bool {
    if n == 0 {
        spans.len() == 0
    } else {
        &&& spans.len() >= 1
        &&& spans[0].start == 0
        &&& spans[spans.len() - 1].end == n - 1
        &&& forall|j: int| 0 <= j < spans.len() ==> (#[trigger] spans[j]).start <= spans[j].end
        &&& forall|j: int|
            0 <= j < spans.len() - 1 ==> (#[trigger] spans[j]).end + 1 == spans[j + 1].start
    }
}

/// Every instance a span covers uses exactly the span's texture.
pub open spec fn spans_group(spans: Seq<DrawSpan>, texes: Seq<u64>) -> bool {
    forall|j: int, i: int|
        #![trigger spans[j], texes[i]]
        0 <= j < spans.len() && spans[j].start <= i <= spans[j].end ==> texes[i]
            == spans[j].texture
}

/// Neighbouring spans never share a texture: no two spans could be
/// merged, so the list is as short as the ordering allows.
pub open spec fn spans_merged(spans: Seq<DrawSpan>) -> bool {
    forall|j: int|
        0 <= j < spans.len() - 1 ==> (#[trigger] spans[j]).texture != spans[j + 1].texture
}

/// In a partition of `[0, n)`, every span lies inside `[0, n)`.
pub proof fn lemma_span_in_range(spans: Seq<DrawSpan>, n: int, j: int)
    requires
        spans_partition(spans, n),
        0 <= j < spans.len(),
    ensures
        spans[j].start <= spans[j].end < n,
    decreases spans.len() - j,
{
    if j < spans.len() - 1 {
        lemma_span_in_range(spans, n, j + 1);
    }
}

proof fn lemma_find_span_from(spans: Seq<DrawSpan>, n: int, i: int, j: int)
    requires
        spans_partition(spans, n),
        0 <= j < spans.len(),
        spans[j].start <= i < n,
    ensures
        exists|k: int|
            0 <= k < spans.len() && (#[trigger] spans[k]).start <= i <= spans[k].end,
    decreases spans.len() - j,
{
    if i <= spans[j].end {
        assert(spans[j].start <= i <= spans[j].end);
    } else {
        assert(j < spans.len() - 1);
        lemma_find_span_from(spans, n, i, j + 1);
    }
}

proof fn lemma_span_order(spans: Seq<DrawSpan>, n: int, j1: int, j2: int)
    requires
        spans_partition(spans, n),
        0 <= j1 < j2 < spans.len(),
    ensures
        spans[j1].end < spans[j2].start,
    decreases j2 - j1,
{
    if j1 + 1 < j2 {
        lemma_span_order(spans, n, j1 + 1, j2);
    }
}

/// Instance `i` falls inside at least one of the spans.
pub open spec fn covered_by_some_span(spans: Seq<DrawSpan>, i: int) -> bool {
    exists|k: int| 0 <= k < spans.len() && (#[trigger] spans[k]).start <= i <= spans[k].end
}

/// The span partition property, read as coverage: the spans of a
/// non-empty batch are sorted ascending and cut `[0, n)` with no gap and
/// no overlap — every instance index falls in some span, and any two
/// distinct spans cover disjoint index ranges.
pub proof fn lemma_spans_cover(spans: Seq<DrawSpan>, n: int)
    requires
        spans_partition(spans, n),
    ensures
        forall|i: int| 0 <= i < n ==> #[trigger] covered_by_some_span(spans, i),
        forall|j1: int, j2: int|
            0 <= j1 < j2 < spans.len() ==> (#[trigger] spans[j1]).end
                < (#[trigger] spans[j2]).start,
{
    assert forall|i: int| 0 <= i < n implies #[trigger] covered_by_some_span(spans, i) by {
        lemma_find_span_from(spans, n, i, 0);
    }
    assert forall|j1: int, j2: int| 0 <= j1 < j2 < spans.len() implies (#[trigger] spans[j1]).end
        < (#[trigger] spans[j2]).start by {
        lemma_span_order(spans, n, j1, j2);
    }
}

/// A batch whose components all share one texture draws as exactly one
/// span, covering every instance under that texture.
pub proof fn lemma_single_texture_single_span(spans: Seq<DrawSpan>, texes: Seq<u64>, t: u64)
    requires
        spans_partition(spans, texes.len() as int),
        spans_group(spans, texes),
        spans_merged(spans),
        texes.len() > 0,
        forall|i: int| 0 <= i < texes.len() ==> #[trigger] texes[i] == t,
    ensures
        spans.len() == 1,
        spans[0] == (DrawSpan { start: 0, end: (texes.len() - 1) as u32, texture: t }),
{
    if spans.len() >= 2 {
        lemma_span_in_range(spans, texes.len() as int, 0);
        lemma_span_in_range(spans, texes.len() as int, 1);
        assert(texes[spans[0].start as int] == spans[0].texture);
        assert(texes[spans[1].start as int] == spans[1].texture);
        assert(spans[0].texture == spans[1].texture);
        assert(false);
    }
    lemma_span_in_range(spans, texes.len() as int, 0);
    assert(texes[spans[0].start as int] == spans[0].texture);
}

proof fn lemma_span_texture_order(spans: Seq<DrawSpan>, p: int, q: int)
    requires
        forall|j: int|
            0 <= j < spans.len() - 1 ==> (#[trigger] spans[j]).texture < spans[j + 1].texture,
        0 <= p < q < spans.len(),
    ensures
        spans[p].texture < spans[q].texture,
    decreases q - p,
{
    if p + 1 < q {
        lemma_span_texture_order(spans, p + 1, q);
    }
}

/// With a texture-sorted batch the span list is as short as it can be:
/// exactly one span per distinct texture in use, so the batch draws in
/// the minimum number of draw calls.
pub proof fn lemma_span_count_minimal(spans: Seq<DrawSpan>, texes: Seq<u64>)
    requires
        spans_partition(spans, texes.len() as int),
        spans_group(spans, texes),
        spans_merged(spans),
        forall|i: int, j: int|
            0 <= i <= j < texes.len() ==> #[trigger] texes[i] <= #[trigger] texes[j],
    ensures
        spans.len() == texes.to_set().len(),
{
    broadcast use vstd::set::group_set_axioms;

    let n = texes.len() as int;
    let sts = spans.map_values(|sp: DrawSpan| sp.texture);
    if n == 0 {
        texes.lemma_cardinality_of_empty_set_is_0();
    } else {
        assert forall|j: int|
            0 <= j < spans.len() - 1 implies (#[trigger] spans[j]).texture < spans[j
            + 1].texture by {
            lemma_span_in_range(spans, n, j);
            lemma_span_in_range(spans, n, j + 1);
            let e = spans[j].end as int;
            assert(texes[e] == spans[j].texture);
            assert(texes[e + 1] == spans[j + 1].texture);
            assert(texes[e] <= texes[e + 1]);
        }
        assert(sts.no_duplicates()) by {
            assert forall|p: int, q: int|
                0 <= p < sts.len() && 0 <= q < sts.len() && p != q implies sts[p] != sts[q] by {
                if p < q {
                    lemma_span_texture_order(spans, p, q);
                } else {
                    lemma_span_texture_order(spans, q, p);
                }
            }
        }
        sts.unique_seq_to_set();
        assert(sts.to_set() =~= texes.to_set()) by {
            assert forall|t: u64| sts.to_set().contains(t) implies texes.to_set().contains(t) by {
                let j = choose|j: int| 0 <= j < sts.len() && sts[j] == t;
                lemma_span_in_range(spans, n, j);
                let st = spans[j].start as int;
                assert(texes[st] == spans[j].texture);
                assert(texes.contains(texes[st]));
            }
            assert forall|t: u64| texes.to_set().contains(t) implies sts.to_set().contains(t) by {
                let i = choose|i: int| 0 <= i < texes.len() && texes[i] == t;
                lemma_find_span_from(spans, n, i, 0);
                let k = choose|k: int|
                    0 <= k < spans.len() && (#[trigger] spans[k]).start <= i <= spans[k].end;
                assert(texes[i] == spans[k].texture);
                assert(sts[k] == t);
                assert(sts.contains(sts[k]));
            }
        }
    }
}

/// A prepared batch issues exactly one draw call per distinct texture
/// of the component stream: spans of a stable texture sort are as few
/// as the stream's distinct textures.
pub proof fn lemma_prepare_span_count(
    spans: Seq<DrawSpan>,
    s: Seq<(Transform, Sprite)>,
    data: Seq<(Transform, Sprite)>,
)
    requires
        spans_partition(spans, s.len() as int),
        spans_group(spans, texes_of(s)),
        spans_merged(spans),
        is_stable_sort_by_texture(data, s),
        sorted_by_texture(s),
    ensures
        spans.len() == texes_of(data).to_set().len(),
{
    broadcast use vstd::set::group_set_axioms;

    let ts = texes_of(s);
    let td = texes_of(data);
    assert forall|i: int, j: int| 0 <= i <= j < ts.len() implies #[trigger] ts[i]
        <= #[trigger] ts[j] by {
        assert(ts[i] == s[i].1.texture);
        assert(ts[j] == s[j].1.texture);
    }
    lemma_span_count_minimal(spans, ts);
    assert forall|t: u64| #[trigger] with_texture(s, t) == with_texture(data, t) by {
        assert(with_texture(data, t) == with_texture(s, t));
    }
    assert(ts.to_set() =~= td.to_set()) by {
        assert forall|t: u64| ts.contains(t) implies td.contains(t) by {
            let i = choose|i: int| 0 <= i < ts.len() && ts[i] == t;
            assert(s[i].1.texture == t);
            lemma_texture_carries(data, s, t);
            let w = choose|w: int| 0 <= w < data.len() && #[trigger] data[w].1.texture == t;
            assert(td[w] == t);
            assert(td.contains(td[w]));
        }
        assert forall|t: u64| td.contains(t) implies ts.contains(t) by {
            let i = choose|i: int| 0 <= i < td.len() && td[i] == t;
            assert(data[i].1.texture == t);
            lemma_texture_carries(s, data, t);
            let w = choose|w: int| 0 <= w < s.len() && #[trigger] s[w].1.texture == t;
            assert(ts[w] == t);
            assert(ts.contains(ts[w]));
        }
    }
}

/// The bind-group cache bound: a cache that holds bind groups for the
/// texture set `before` and then gains one for each missing texture of
/// a batch with texture set `batch` ends with exactly the textures
/// `before + batch` — one bind group each, no duplicates, none missing.
/// A cache that starts empty therefore ends with exactly as many bind
/// groups as the batch has distinct textures.
pub proof fn lemma_bind_group_cache_bound(before: Set<u64>, batch: Set<u64>)
    requires
        before.finite(),
        batch.finite(),
    ensures
        (before + batch).len() == before.len() + batch.difference(before).len(),
{
    broadcast use vstd::set::group_set_axioms;

    assert(batch.difference(before).subset_of(batch));
    vstd::set_lib::lemma_len_subset(batch.difference(before), batch);
    assert(before + batch =~= before + batch.difference(before));
    assert(before.disjoint(batch.difference(before)));
    vstd::set_lib::lemma_set_disjoint_lens(before, batch.difference(before));
}

/// Cuts a texture sequence into its maximal constant runs, one draw span
/// per run.
fn compute_spans(texes: &Vec<u64>) -> (spans: Vec<DrawSpan>)
    requires
        texes@.len() <= u32::MAX,
    ensures
        spans_partition(spans@, texes@.len() as int),
        spans_group(spans@, texes@),
        spans_merged(spans@),
{
    let mut spans: Vec<DrawSpan> = Vec::new();
    let mut i: usize = 0;
    while i < texes.len()
        invariant
            i <= texes@.len(),
            texes@.len() <= u32::MAX,
            spans_partition(spans@, i as int),
            spans_group(spans@, texes@),
            spans_merged(spans@),
            i > 0 ==> spans@.len() >= 1 && spans@[spans@.len() - 1].texture == texes@[i - 1],
        decreases texes@.len() - i,
    {
        let ghost prev = spans@;
        let t = texes[i];
        let n = spans.len();
        if n == 0 {
            spans.push(DrawSpan { start: 0, end: 0, texture: t });
        } else if spans[n - 1].texture != t {
            spans.push(DrawSpan { start: i as u32, end: i as u32, texture: t });
            proof {
                assert(forall|j: int| 0 <= j < prev.len() ==> spans@[j] == prev[j]);
            }
        } else {
            let e = vstd::std_specs::vec::vec_index_mut(&mut spans, n - 1);
            e.end = i as u32;
            proof {
                assert(forall|j: int| 0 <= j < prev.len() - 1 ==> spans@[j] == prev[j]);
                assert(spans@[prev.len() - 1].start == prev[prev.len() - 1].start);
                assert(spans@[prev.len() - 1].texture == prev[prev.len() - 1].texture);
                assert(spans@[prev.len() - 1].end == i);
            }
        }
        i += 1;
    }
    spans
}

/// Every span's texture is cached: if each texture of the stream has a
/// bind group, then so has the texture of every span of a batch grouped
/// from a stable reordering of that stream.
proof fn lemma_span_bind_groups(
    spans: Seq<DrawSpan>,
    s: Seq<(Transform, Sprite)>,
    data: Seq<(Transform, Sprite)>,
    cached: Set<u64>,
)
    requires
        spans_partition(spans, s.len() as int),
        spans_group(spans, texes_of(s)),
        stable_reordering(data, s),
        forall|i: int| 0 <= i < data.len() ==> cached.contains((#[trigger] data[i]).1.texture),
    ensures
        forall|j: int| 0 <= j < spans.len() ==> cached.contains((#[trigger] spans[j]).texture),
{
    assert forall|j: int| 0 <= j < spans.len() implies cached.contains(
        (#[trigger] spans[j]).texture,
    ) by {
        let sp = spans[j];
        let st = sp.start as int;
        lemma_span_in_range(spans, s.len() as int, j);
        assert(texes_of(s)[st] == sp.texture);
        assert(s[st].1.texture == sp.texture);
        assert(has_texture(s, sp.texture));
        lemma_texture_carries(data, s, sp.texture);
        let w = choose|w: int| 0 <= w < data.len() && #[trigger] data[w].1.texture == sp.texture;
        assert(cached.contains(data[w].1.texture));
    }
}

/// Appends the 64-byte record of each component to an empty staging
/// buffer and collects the texture handles alongside, in order.
fn stage_records(out: &mut Vec<u8>, sorted: &Vec<(Transform, Sprite)>) -> (texes: Vec<u64>)
    requires
        old(out)@.len() == 0,
        sorted@.len() * 64 <= usize::MAX,
    ensures
        final(out)@ == batch_bytes(sorted@),
        final(out)@.len() == sorted@.len() * 64,
        texes@ == texes_of(sorted@),
{
    let mut texes: Vec<u64> = Vec::new();
    let mut i: usize = 0;
    while i < sorted.len()
        invariant
            i <= sorted@.len(),
            sorted@.len() * 64 <= usize::MAX,
            out@ == batch_bytes(sorted@.take(i as int)),
            out@.len() == i * 64,
            texes@ == texes_of(sorted@.take(i as int)),
        decreases sorted@.len() - i,
    {
        let pair = sorted[i];
        encode_record(out, &pair.0, &pair.1.data);
        texes.push(pair.1.texture);
        proof {
            let di = i as int;
            assert(sorted@.take(di + 1).drop_last() =~= sorted@.take(di));
            assert(sorted@.take(di + 1).last() == sorted@[di]);
            assert(texes@ =~= texes_of(sorted@.take(di + 1)));
        }
        i += 1;
    }
    proof {
        assert(sorted@.take(sorted@.len() as int) =~= sorted@);
        lemma_batch_bytes_len(sorted@);
    }
    texes
}

pub struct SpritePipeline<BG> {
    pub bind_groups: KeyedCache<BG>,
    pub camera_buffer: u64,
    pub vertex_buffer: u64,
    pub vertex_buffer_data: Vec<u8>,
    pub vertex_buffer_size: u64,
    pub draw_instances: Vec<DrawSpan>,
}

impl<BG> SpritePipeline<BG> {
    /// The bind-group cache is well formed and the capacity is 16 bytes
    /// times a power of two — the shape the doubling policy preserves.
    pub open spec fn wf(self) -> bool {
        &&& self.bind_groups.wf()
        &&& exists|k: nat| self.vertex_buffer_size == 16 * pow2(k)
    }

    /// A fresh pipeline over an already-allocated camera uniform buffer
    /// and a 16-byte initial instance buffer: empty bind-group cache,
    /// empty staging data, no spans.
    pub fn new(camera_buffer: u64, vertex_buffer: u64) -> (r: SpritePipeline<BG>)
        ensures
            r.wf(),
            r.camera_buffer == camera_buffer,
            r.vertex_buffer == vertex_buffer,
            r.vertex_buffer_size == 16,
            r.bind_groups.contents() == Map::<u64, BG>::empty(),
            r.vertex_buffer_data@.len() == 0,
            r.draw_instances@.len() == 0,
    {
        proof {
            vstd::arithmetic::power2::lemma2_to64();
            assert(16 == 16 * pow2(0));
        }
        SpritePipeline {
            bind_groups: KeyedCache::new(),
            camera_buffer,
            vertex_buffer,
            vertex_buffer_data: Vec::new(),
            vertex_buffer_size: 16,
            draw_instances: Vec::new(),
        }
    }

    /// Whether a batch of `count` instances outgrows the current buffer,
    /// and if so the doubled capacity a replacement must be created with.
    pub fn growth_needed(&self, count: u64) -> (r: Option<u64>)
        requires
            self.wf(),
            count * STRIDE <= 0x8000000000000000,
        ensures
            r == if count * STRIDE <= self.vertex_buffer_size {
                Option::<u64>::None
            } else {
                Some(grow_spec(self.vertex_buffer_size as int, count * STRIDE) as u64)
            },
    {
        let size = count * STRIDE;
        if size > self.vertex_buffer_size {
            let mut cap = self.vertex_buffer_size;
            proof {
                let k = choose|k: nat| self.vertex_buffer_size == 16 * pow2(k);
                vstd::arithmetic::power2::lemma_pow2_pos(k);
                assert(16 * pow2(k) >= 16) by (nonlinear_arith)
                    requires
                        pow2(k) >= 1,
                ;
                lemma_grow_spec(cap as int, size as int);
            }
            while size > cap
                invariant
                    1 <= cap,
                    size <= 0x8000000000000000,
                    grow_spec(cap as int, size as int) == grow_spec(
                        self.vertex_buffer_size as int,
                        size as int,
                    ),
                    grow_spec(self.vertex_buffer_size as int, size as int) <= u64::MAX,
                decreases (if size > cap { size - cap } else { 0 }),
            {
                cap = cap * 2;
            }
            Some(cap)
        } else {
            None
        }
    }

    /// Applies the growth policy for a batch of `count` instances.
    ///
    /// If `count * STRIDE` bytes fit the current instance buffer, nothing
    /// changes at all. Otherwise the old buffer is destroyed, the
    /// capacity doubles until it suffices, and the replacement buffer the
    /// embedding program created at exactly the doubled size (the value
    /// `growth_needed` returned) is stored under a fresh handle; the
    /// host-side mirror is padded to the batch size. Capacity never
    /// shrinks and always remains the initial 16 bytes times a power of
    /// two.
    pub fn update_element_count<Buf, Tex>(
        &mut self,
        resources: &mut Resources<Buf, Tex>,
        count: u64,
        new_buffer: Option<Buf>,
    )
        requires
            old(self).wf(),
            old(resources).wf(),
            count * STRIDE <= 0x8000000000000000,
            count * STRIDE <= usize::MAX,
            old(resources).buffers.contents().contains_key(old(self).vertex_buffer),
            old(resources).buffers.next < u64::MAX,
            (new_buffer is Some) <==> count * STRIDE > old(self).vertex_buffer_size,
        ensures
            final(self).wf(),
            final(resources).wf(),
            final(self).vertex_buffer_size == grown_capacity(old(self).vertex_buffer_size, count),
            final(self).vertex_buffer_size >= old(self).vertex_buffer_size,
            final(self).vertex_buffer_size >= count * STRIDE,
            exists|k: nat|
                final(self).vertex_buffer_size == old(self).vertex_buffer_size * pow2(k),
            final(resources).buffers.contents().contains_key(final(self).vertex_buffer),
            final(self).bind_groups == old(self).bind_groups,
            final(self).camera_buffer == old(self).camera_buffer,
            final(self).draw_instances == old(self).draw_instances,
            final(resources).textures == old(resources).textures,
            final(resources).texture_cache == old(resources).texture_cache,
            count * STRIDE <= old(self).vertex_buffer_size ==> *final(self) == *old(self)
                && *final(resources) == *old(resources),
            count * STRIDE > old(self).vertex_buffer_size ==> {
                &&& final(self).vertex_buffer == old(resources).buffers.next
                &&& (new_buffer matches Some(b) ==> final(resources).buffers.contents() == old(
                    resources,
                ).buffers.contents().remove(old(self).vertex_buffer).insert(
                    old(resources).buffers.next,
                    b,
                ))
                &&& final(self).vertex_buffer_data@.len() == count * STRIDE
            },
    {
        let size = count * STRIDE;
        let grown = self.growth_needed(count);
        match grown {
            Some(new_size) => {
                let old_buffer = resources.unload_buffer(self.vertex_buffer);
                self.vertex_buffer_size = new_size;
                match new_buffer {
                    Some(b) => {
                        self.vertex_buffer = resources.load_buffer(b);
                    },
                    None => {
                        proof {
                            assert(false);
                        }
                    },
                }
                self.vertex_buffer_data.resize(size as usize, 0);
                proof {
                    let cap0 = old(self).vertex_buffer_size as int;
                    let k0 = choose|k: nat| old(self).vertex_buffer_size == 16 * pow2(k);
                    vstd::arithmetic::power2::lemma_pow2_pos(k0);
                    assert(16 * pow2(k0) >= 16) by (nonlinear_arith)
                        requires
                            pow2(k0) >= 1,
                    ;
                    lemma_grow_spec(cap0, size as int);
                    let k1 = choose|k: nat| grow_spec(cap0, size as int) == cap0 * pow2(k);
                    vstd::arithmetic::power2::lemma_pow2_adds(k0, k1);
                    assert((16 * pow2(k0)) * pow2(k1) == 16 * (pow2(k0) * pow2(k1)))
                        by (nonlinear_arith);
                    assert(self.vertex_buffer_size == 16 * pow2(k0 + k1));
                }
            },
            None => {
                proof {
                    vstd::arithmetic::power2::lemma2_to64();
                    assert(self.vertex_buffer_size == self.vertex_buffer_size * pow2(0));
                }
            },
        }
    }

    /// The distinct textures of a batch that have no bind group yet —
    /// the ones the embedding program must create and install before
    /// this batch can be prepared.
    pub fn missing_textures(&self, data: &Vec<(Transform, Sprite)>) -> (r: Vec<u64>)
        ensures
            r@.no_duplicates(),
            forall|t: u64|
                r@.contains(t) <==> (has_texture(data@, t)
                    && !self.bind_groups.contents().contains_key(t)),
    {
        let mut r: Vec<u64> = Vec::new();
        let mut i: usize = 0;
        while i < data.len()
            invariant
                i <= data@.len(),
                r@.no_duplicates(),
                forall|t: u64|
                    r@.contains(t) <==> (has_texture(data@.take(i as int), t)
                        && !self.bind_groups.contents().contains_key(t)),
            decreases data@.len() - i,
        {
            let ghost prev = r@;
            let t = data[i].1.texture;
            if !self.bind_groups.contains(t) {
                if !vec_contains_u64(&r, t) {
                    r.push(t);
                }
            }
            proof {
                let di = i as int;
                assert(data@.take(di + 1)[di] == data@[di]);
                if r@.len() > prev.len() {
                    assert(forall|j: int| 0 <= j < prev.len() ==> r@[j] == prev[j]);
                    assert(r@[r@.len() - 1] == t);
                }
                assert forall|y: u64|
                    r@.contains(y) implies (has_texture(data@.take(di + 1), y)
                    && !self.bind_groups.contents().contains_key(y)) by {
                    let j = choose|j: int| 0 <= j < r@.len() && r@[j] == y;
                    if j < prev.len() {
                        assert(prev[j] == y);
                        assert(prev.contains(y));
                        let w = choose|w: int|
                            0 <= w < data@.take(di).len() && (#[trigger] data@.take(
                                di,
                            )[w].1.texture) == y;
                        assert(data@.take(di + 1)[w].1.texture == y);
                    } else {
                        assert(y == t);
                        assert(data@.take(di + 1)[di].1.texture == t);
                    }
                }
                assert forall|y: u64|
                    (has_texture(data@.take(di + 1), y)
                        && !self.bind_groups.contents().contains_key(y)) implies r@.contains(
                    y,
                ) by {
                    let w = choose|w: int|
                        0 <= w < data@.take(di + 1).len() && (#[trigger] data@.take(
                            di + 1,
                        )[w].1.texture) == y;
                    if w < di {
                        assert(data@.take(di)[w].1.texture == y);
                        assert(has_texture(data@.take(di), y));
                        assert(prev.contains(y));
                        let j = choose|j: int| 0 <= j < prev.len() && prev[j] == y;
                        assert(r@[j] == y);
                    } else {
                        assert(y == t);
                        if prev.contains(t) {
                            let j = choose|j: int| 0 <= j < prev.len() && prev[j] == t;
                            assert(r@[j] == t);
                        } else {
                            assert(r@[r@.len() - 1] == t);
                        }
                    }
                }
            }
            i += 1;
        }
        proof {
            assert(data@.take(data@.len() as int) =~= data@);
        }
        r
    }

    /// Files one freshly created bind group under each listed texture.
    /// The list must pair distinct textures that have no bind group yet
    /// — exactly what `missing_textures` reports — so afterwards the
    /// cache holds its old textures plus precisely the listed ones, its
    /// size grown by the number of new textures.
    pub fn install_bind_groups(&mut self, groups: Vec<(u64, BG)>)
        requires
            old(self).wf(),
            group_keys(groups@).no_duplicates(),
            forall|j: int|
                0 <= j < groups@.len() ==> !old(self).bind_groups.contents().contains_key(
                    (#[trigger] groups@[j]).0,
                ),
        ensures
            final(self).wf(),
            forall|t: u64|
                final(self).bind_groups.contents().contains_key(t) <==> (old(
                    self,
                ).bind_groups.contents().contains_key(t) || group_keys(groups@).contains(t)),
            final(self).bind_groups.entries@.len() == old(self).bind_groups.entries@.len()
                + groups@.len(),
            final(self).camera_buffer == old(self).camera_buffer,
            final(self).vertex_buffer == old(self).vertex_buffer,
            final(self).vertex_buffer_size == old(self).vertex_buffer_size,
            final(self).vertex_buffer_data == old(self).vertex_buffer_data,
            final(self).draw_instances == old(self).draw_instances,
    {
        let ghost orig = groups@;
        let mut groups = groups;
        while groups.len() > 0
            invariant
                self.wf(),
                groups@.len() <= orig.len(),
                groups@ == orig.take(groups@.len() as int),
                group_keys(orig).no_duplicates(),
                forall|j: int|
                    0 <= j < orig.len() ==> !old(self).bind_groups.contents().contains_key(
                        (#[trigger] orig[j]).0,
                    ),
                forall|t: u64|
                    self.bind_groups.contents().contains_key(t) <==> (old(
                        self,
                    ).bind_groups.contents().contains_key(t) || group_keys(orig).skip(
                        groups@.len() as int,
                    ).contains(t)),
                self.bind_groups.entries@.len() == old(self).bind_groups.entries@.len()
                    + orig.len() - groups@.len(),
                self.camera_buffer == old(self).camera_buffer,
                self.vertex_buffer == old(self).vertex_buffer,
                self.vertex_buffer_size == old(self).vertex_buffer_size,
                self.vertex_buffer_data == old(self).vertex_buffer_data,
                self.draw_instances == old(self).draw_instances,
            decreases groups@.len(),
        {
            let ghost m = groups@.len() as int;
            let g = match groups.pop() {
                Some(g) => g,
                None => {
                    proof {
                        assert(false);
                    }
                    vstd::pervasive::unreached()
                },
            };
            proof {
                assert(orig.take(m).drop_last() =~= orig.take(m - 1));
                assert(orig.take(m).last() == orig[m - 1]);
                assert(g == orig[m - 1]);
                assert(group_keys(orig)[m - 1] == orig[m - 1].0);
                assert(!group_keys(orig).skip(m).contains(orig[m - 1].0)) by {
                    if group_keys(orig).skip(m).contains(orig[m - 1].0) {
                        let w = choose|w: int|
                            0 <= w < group_keys(orig).skip(m).len() && #[trigger] group_keys(
                                orig,
                            ).skip(m)[w] == orig[m - 1].0;
                        assert(group_keys(orig)[w + m] == group_keys(orig)[m - 1]);
                    }
                }
            }
            self.bind_groups.insert(g.0, g.1);
            proof {
                assert forall|t: u64|
                    group_keys(orig).skip(m - 1).contains(t) <==> (group_keys(orig).skip(
                        m,
                    ).contains(t) || t == orig[m - 1].0) by {
                    if group_keys(orig).skip(m - 1).contains(t) {
                        let w = choose|w: int|
                            0 <= w < group_keys(orig).skip(m - 1).len() && #[trigger] group_keys(
                                orig,
                            ).skip(m - 1)[w] == t;
                        if w > 0 {
                            assert(group_keys(orig).skip(m)[w - 1] == t);
                        } else {
                            assert(group_keys(orig)[m - 1] == t);
                        }
                    }
                    if group_keys(orig).skip(m).contains(t) {
                        let w = choose|w: int|
                            0 <= w < group_keys(orig).skip(m).len() && #[trigger] group_keys(
                                orig,
                            ).skip(m)[w] == t;
                        assert(group_keys(orig).skip(m - 1)[w + 1] == t);
                    }
                    if t == orig[m - 1].0 {
                        assert(group_keys(orig).skip(m - 1)[0] == t);
                    }
                }
            }
        }
        proof {
            assert(group_keys(orig).skip(0) =~= group_keys(orig));
        }
    }

    /// Builds the frame's batch from the component stream.
    ///
    /// The stream is stable-sorted by ascending texture handle (ties
    /// keep stream order); the staging buffer becomes the sorted
    /// components' 64-byte records back to back; the draw spans become
    /// the maximal single-texture runs of the sorted order, partitioning
    /// the whole batch with no two neighbours sharing a texture; and the
    /// camera uniform's 64 bytes are returned for upload. The capacity
    /// must already hold the batch (`update_element_count`) and every
    /// texture in use must already have a bind group
    /// (`missing_textures` / `install_bind_groups`), so that each span's
    /// bind group exists at draw time.
    #[verifier::spinoff_prover]
    #[verifier::rlimit(100)]
    pub fn prepare(
        &mut self,
        data: &Vec<(Transform, Sprite)>,
        camera: &CameraData,
    ) -> (cam: Vec<u8>)
        requires
            old(self).wf(),
            data@.len() <= u32::MAX,
            data@.len() * STRIDE <= old(self).vertex_buffer_size,
            data@.len() * STRIDE <= usize::MAX,
            forall|i: int|
                0 <= i < data@.len() ==> old(self).bind_groups.contents().contains_key(
                    (#[trigger] data@[i]).1.texture,
                ),
        ensures
            final(self).wf(),
            cam@ == camera_bytes(*camera),
            exists|s: Seq<(Transform, Sprite)>|
                #[trigger] is_stable_sort_by_texture(data@, s)
                    && final(self).vertex_buffer_data@ == batch_bytes(s)
                    && spans_group(final(self).draw_instances@, texes_of(s)),

            spans_partition(final(self).draw_instances@, data@.len() as int),
            spans_merged(final(self).draw_instances@),
            final(self).draw_instances@.len() == texes_of(data@).to_set().len(),
            forall|j: int|
                0 <= j < final(self).draw_instances@.len()
                    ==> final(self).bind_groups.contents().contains_key(
                    (#[trigger] final(self).draw_instances@[j]).texture,
                ),

            final(self).vertex_buffer_data@.len() == data@.len() * STRIDE,
            final(self).bind_groups == old(self).bind_groups,
            final(self).camera_buffer == old(self).camera_buffer,
            final(self).vertex_buffer == old(self).vertex_buffer,
            final(self).vertex_buffer_size == old(self).vertex_buffer_size,
    {
        let sorted = sort_by_texture(data);
        self.vertex_buffer_data.clear();
        let texes = stage_records(&mut self.vertex_buffer_data, &sorted);
        let spans = compute_spans(&texes);
        self.draw_instances = spans;
        proof {
            lemma_batch_bytes_len(sorted@);
            assert(is_stable_sort_by_texture(data@, sorted@));
            lemma_prepare_span_count(self.draw_instances@, sorted@, data@);
            lemma_span_bind_groups(
                self.draw_instances@,
                sorted@,
                data@,
                old(self).bind_groups.contents().dom(),
            );
        }
        camera.encode()
    }
}

/// The texture handles a bind-group installation list speaks of, in
/// list order.
pub open spec fn group_keys<BG>(s: Seq<(u64, BG)>) -> Seq<u64> {
    s.map_values(|p: (u64, BG)| p.0)
}

/// `s` is the stable sort of `input` by texture handle: same length,
/// ordered by ascending texture, and every per-texture run preserved in
/// stream order. These three clauses determine `s` completely.
pub open spec fn is_stable_sort_by_texture(
    input: Seq<(Transform, Sprite)>,
    s: Seq<(Transform, Sprite)>,
) -> bool {
    &&& s.len() == input.len()
    &&& sorted_by_texture(s)
    &&& stable_reordering(input, s)
}

/// A run starts with the stream's first component when that component
/// matches.
proof fn lemma_with_texture_first(s: Seq<(Transform, Sprite)>, t: u64)
    requires
        s.len() > 0,
        s[0].1.texture == t,
    ensures
        with_texture(s, t).len() > 0,
        with_texture(s, t)[0] == s[0],
    decreases s.len(),
{
    reveal(Seq::filter);
    if s.len() == 1 {
        assert(s.drop_last() =~= Seq::<(Transform, Sprite)>::empty());
    } else {
        assert(s.drop_last()[0] == s[0]);
        lemma_with_texture_first(s.drop_last(), t);
    }
}

proof fn lemma_sorted_same_runs_equal(a: Seq<(Transform, Sprite)>, b: Seq<(Transform, Sprite)>)
    requires
        sorted_by_texture(a),
        sorted_by_texture(b),
        forall|t: u64| #[trigger] with_texture(a, t) == with_texture(b, t),
    ensures
        a == b,
    decreases a.len(),
{
    broadcast use Seq::lemma_filter_contains;

    if a.len() == 0 && b.len() == 0 {
        assert(a =~= b);
    } else if a.len() == 0 {
        let t = b[0].1.texture;
        assert(with_texture(b, t).contains(b[0]));
        lemma_with_texture_none(a, t);
        assert(false);
    } else if b.len() == 0 {
        let t = a[0].1.texture;
        assert(with_texture(a, t).contains(a[0]));
        lemma_with_texture_none(b, t);
        assert(false);
    } else {
        let t0 = a[0].1.texture;
        let t1 = b[0].1.texture;
        // each stream opens with its minimal texture, and the runs agree,
        // so the two heads carry the same texture
        assert(with_texture(a, t0).contains(a[0]));
        lemma_with_texture_elements(b, t0);
        assert(with_texture(b, t0).len() > 0);
        let eb = with_texture(b, t0)[0];
        let jb = choose|j: int| 0 <= j < b.len() && b[j] == eb;
        assert(t1 <= b[jb].1.texture);
        assert(with_texture(b, t1).contains(b[0]));
        lemma_with_texture_elements(a, t1);
        assert(with_texture(a, t1).len() > 0);
        let ea = with_texture(a, t1)[0];
        let ja = choose|j: int| 0 <= j < a.len() && a[j] == ea;
        assert(t0 <= a[ja].1.texture);
        assert(t0 == t1);
        // and the heads themselves are equal: both are the first element
        // of the shared run of t0
        lemma_with_texture_first(a, t0);
        lemma_with_texture_first(b, t0);
        assert(a[0] == b[0]);
        // peel the head off both streams and recurse
        let a2 = a.drop_first();
        let b2 = b.drop_first();
        assert(a =~= seq![a[0]] + a2);
        assert(b =~= seq![b[0]] + b2);
        assert forall|t: u64| #[trigger] with_texture(a2, t) == with_texture(b2, t) by {
            lemma_with_texture_add(seq![a[0]], a2, t);
            lemma_with_texture_add(seq![b[0]], b2, t);
            lemma_with_texture_single(a[0], t);
            let head = with_texture(seq![a[0]], t);
            assert(head + with_texture(a2, t) == head + with_texture(b2, t));
            assert forall|i: int| 0 <= i < with_texture(a2, t).len() implies with_texture(
                a2,
                t,
            )[i] == with_texture(b2, t)[i] by {
                assert((head + with_texture(a2, t))[head.len() + i] == with_texture(a2, t)[i]);
                assert((head + with_texture(b2, t))[head.len() + i] == with_texture(b2, t)[i]);
            }
            assert(with_texture(a2, t).len() == with_texture(b2, t).len());
            assert(with_texture(a2, t) =~= with_texture(b2, t));
        }
        assert(sorted_by_texture(a2)) by {
            assert(forall|i: int| 0 <= i < a2.len() ==> a2[i] == a[i + 1]);
        }
        assert(sorted_by_texture(b2)) by {
            assert(forall|i: int| 0 <= i < b2.len() ==> b2[i] == b[i + 1]);
        }
        lemma_sorted_same_runs_equal(a2, b2);
        assert(a =~= b);
    }
}

/// The stable sort is unique: two stable sorts of one stream are equal,
/// so the three clauses of `is_stable_sort_by_texture` determine the
/// batch order completely.
pub proof fn lemma_stable_sort_unique(
    input: Seq<(Transform, Sprite)>,
    a: Seq<(Transform, Sprite)>,
    b: Seq<(Transform, Sprite)>,
)
    requires
        is_stable_sort_by_texture(input, a),
        is_stable_sort_by_texture(input, b),
    ensures
        a == b,
{
    assert forall|t: u64| #[trigger] with_texture(a, t) == with_texture(b, t) by {
        assert(with_texture(input, t) == with_texture(a, t));
        assert(with_texture(input, t) == with_texture(b, t));
    }
    lemma_sorted_same_runs_equal(a, b);
}

/// A stable reordering uses no texture the source stream did not.
proof fn lemma_texture_carries(
    a: Seq<(Transform, Sprite)>,
    b: Seq<(Transform, Sprite)>,
    t: u64,
)
    requires
        stable_reordering(a, b),
        has_texture(b, t),
    ensures
        has_texture(a, t),
{
    broadcast use Seq::lemma_filter_contains;

    let i = choose|i: int| 0 <= i < b.len() && #[trigger] b[i].1.texture == t;
    assert(with_texture(b, t).contains(b[i]));
    assert(with_texture(a, t).len() > 0);
    lemma_with_texture_elements(a, t);
    let x = with_texture(a, t)[0];
    let j = choose|j: int| 0 <= j < a.len() && a[j] == x;
    assert(a[j].1.texture == t);
}

} // verus!

