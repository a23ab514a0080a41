//! Supersampling (SSAA) sizing: how large the off-screen render surface must
//! be for a requested output size and quality, clamped against the device's
//! color precision and the surface the window system actually provided.

use crate::blueprint::BlueprintEntry;
use crate::tweaks::{model_views, spec_sets_lookup, MeshHandle, ModelLoader};
use vstd::prelude::*;

verus! {

/// Supersampling factors beyond this cap yield no perceptible quality gain.
pub const SSAA_CAP: u32 = 16;

/// The effective render resolution, distinct from the requested output size.
pub struct RenderSize {
    pub width: u32,
    pub height: u32,
    pub ssaa: u32,
}

/// Larger of two mathematical integers.
pub open spec fn max_i(a: int, b: int) -> int {
    if a >= b {
        a
    } else {
        b
    }
}

/// Smaller of two mathematical integers.
pub open spec fn min_i(a: int, b: int) -> int {
    if a <= b {
        a
    } else {
        b
    }
}

/// Power of two over the mathematical integers, from vstd.
pub open spec fn pow2(e: nat) -> nat {
    vstd::arithmetic::power2::pow2(e)
}

/// `n` is the least integer whose square, scaled by `m`, reaches `a`;
/// that is, `n` is the ceiling of the real square root of `a / m`.
pub open spec fn is_least_scaled_root(n: int, a: int, m: int) -> bool {
    &&& n >= 0
    &&& n * n * m >= a
    &&& (n - 1) * (n - 1) * m < a
}

/// The scaled root is pinned down uniquely by `is_least_scaled_root`.
pub proof fn lemma_least_scaled_root_unique(n1: int, n2: int, a: int, m: int)
    requires
        m >= 1,
        is_least_scaled_root(n1, a, m),
        is_least_scaled_root(n2, a, m),
    ensures
        n1 == n2,
{
    if n1 < n2 {
        assert(n1 * n1 * m <= (n2 - 1) * (n2 - 1) * m) by (nonlinear_arith)
            requires
                0 <= n1 <= n2 - 1,
                m >= 1,
        ;
    }
    if n2 < n1 {
        assert(n2 * n2 * m <= (n1 - 1) * (n1 - 1) * m) by (nonlinear_arith)
            requires
                0 <= n2 <= n1 - 1,
                m >= 1,
        ;
    }
}

/// The largest SSAA factor that can still add resolvable detail given the
/// color buffer's bit depth and the device MSAA sample count: the ceiling of
/// `sqrt(2^color_bits / max(msaa_samples, 1))`, computed exactly in integers.
pub fn max_useful_ssaa(color_bits: u32, msaa_samples: u32) -> (r: u32)
    requires
        color_bits < 32,
    ensures
        is_least_scaled_root(
            r as int,
            pow2(color_bits as nat) as int,
            max_i(msaa_samples as int, 1),
        ),
        1 <= r <= 0x1_0000,
{
    let a: u64 = 1u64 << color_bits;
    let m: u64 = if msaa_samples >= 1 {
        msaa_samples as u64
    } else {
        1u64
    };
    proof {
        vstd::arithmetic::power2::lemma_pow2_strictly_increases(color_bits as nat, 32);
        vstd::arithmetic::power2::lemma_pow2_pos(color_bits as nat);
        vstd::arithmetic::power2::lemma2_to64();
        vstd::bits::lemma_u64_shl_is_mul(1u64, color_bits as u64);
    }
    let mut n: u64 = 0;
    loop
        invariant
            1 <= a <= 0x8000_0000u64,
            1 <= m <= 0xffff_ffffu64,
            n <= 0x1_0000u64,
            n >= 1 ==> (n - 1) * (n - 1) * m < a,
            a == pow2(color_bits as nat),
            m == max_i(msaa_samples as int, 1),
        ensures
            is_least_scaled_root(n as int, a as int, m as int),
            1 <= n <= 0x1_0000u64,
        decreases 0x1_0001u64 - n,
    {
        proof {
            assert(n * n <= 0x1_0000_0000u64) by (nonlinear_arith)
                requires
                    0 <= n <= 0x1_0000u64,
            ;
            assert(n * n * m <= 0x1_0000_0000u64 * 0xffff_ffffu64) by (nonlinear_arith)
                requires
                    0 <= n * n <= 0x1_0000_0000u64,
                    1 <= m <= 0xffff_ffffu64,
            ;
        }
        let square_scaled = n * n * m;
        if square_scaled >= a {
            proof {
                if n == 0 {
                    assert(0 * 0 * m == 0) by (nonlinear_arith);
                }
            }
            break;
        }
        proof {
            assert(n < 0x1_0000u64) by (nonlinear_arith)
                requires
                    n * n * m < 0x8000_0000u64,
                    m >= 1,
                    n >= 0,
            ;
            assert((n + 1) * (n + 1) * m > n * n * m) by (nonlinear_arith)
                requires
                    n >= 0,
                    m >= 1,
            ;
        }
        n = n + 1;
    }
    n as u32
}

/// Exact statement of the aspect-preserving clamp below.
pub open spec fn spec_clamp_with_aspect_ratio(
    src_width: int,
    src_height: int,
    dst_width: int,
    dst_height: int,
) -> (int, int) {
    if src_width <= dst_width && src_height <= dst_height {
        (src_width, src_height)
    } else if src_width * dst_height > src_height * dst_width {
        (dst_width, (src_height * dst_width) / src_width)
    } else {
        ((src_width * dst_height) / src_height, dst_height)
    }
}

/// Shrink `(src_width, src_height)` so it fits inside `(dst_width,
/// dst_height)` while keeping the source aspect ratio, by finding which axis
/// is the binding constraint; a source that already fits is returned as is.
pub fn clamp_with_aspect_ratio(
    src_width: u32,
    src_height: u32,
    dst_width: u32,
    dst_height: u32,
) -> (r: (u32, u32))
    requires
        src_width >= 1,
        src_height >= 1,
        src_width * dst_height <= u32::MAX,
        src_height * dst_width <= u32::MAX,
    ensures
        (r.0 as int, r.1 as int) == spec_clamp_with_aspect_ratio(
            src_width as int,
            src_height as int,
            dst_width as int,
            dst_height as int,
        ),
        r.0 <= dst_width,
        r.1 <= dst_height,
{
    if src_width <= dst_width && src_height <= dst_height {
        return (src_width, src_height);
    }

    let width = src_width * dst_height;
    let height = src_height * dst_width;

    if width > height {
        proof {
            assert(height as int / src_width as int <= dst_height) by (nonlinear_arith)
                requires
                    height < src_width * dst_height,
                    src_width >= 1,
                    height >= 0,
                    dst_height >= 0,
            ;
        }
        (dst_width, height / src_width)
    } else {
        proof {
            assert(width as int / src_height as int <= dst_width) by (nonlinear_arith)
                requires
                    width <= src_height * dst_width,
                    src_height >= 1,
                    width >= 0,
                    dst_width >= 0,
            ;
        }
        (width / src_height, dst_height)
    }
}

/// The SSAA request after the sanity clamp alone: raised to at least 1 and
/// capped at `SSAA_CAP`.  The device-depth clamp comes on top of this.
pub open spec fn spec_capped_ssaa(ssaa_request: int) -> int {
    min_i(max_i(ssaa_request, 1), SSAA_CAP as int)
}

/// Decide the effective render resolution for a requested output size:
/// clamp the SSAA request for sanity and device color depth, scale the
/// requested size by the surviving factor, and shrink the result onto the
/// available surface while preserving the aspect ratio.
///
/// The multiplication bounds in `requires` keep every product inside `u32`,
/// as the 32-bit sizes force; `spec_capped_ssaa` bounds the factor actually
/// used.
pub fn plan_render_size(
    requested_width: u32,
    requested_height: u32,
    ssaa_request: u32,
    color_bits: u32,
    msaa_samples: u32,
    surface_width: u32,
    surface_height: u32,
) -> (r: RenderSize)
    requires
        requested_width >= 1,
        requested_height >= 1,
        color_bits < 32,
        requested_width * spec_capped_ssaa(ssaa_request as int) <= u32::MAX,
        requested_height * spec_capped_ssaa(ssaa_request as int) <= u32::MAX,
        requested_width * spec_capped_ssaa(ssaa_request as int) * surface_height <= u32::MAX,
        requested_height * spec_capped_ssaa(ssaa_request as int) * surface_width <= u32::MAX,
    ensures
        1 <= r.ssaa as int <= spec_capped_ssaa(ssaa_request as int),
        forall|useful: int|
            is_least_scaled_root(
                useful,
                pow2(color_bits as nat) as int,
                max_i(msaa_samples as int, 1),
            ) ==> r.ssaa as int == min_i(spec_capped_ssaa(ssaa_request as int), useful),
        (r.width as int, r.height as int) == spec_clamp_with_aspect_ratio(
            requested_width as int * r.ssaa as int,
            requested_height as int * r.ssaa as int,
            surface_width as int,
            surface_height as int,
        ),
        r.width <= surface_width,
        r.height <= surface_height,
{
    let mut ssaa = if ssaa_request >= 1 {
        ssaa_request
    } else {
        1
    };
    if ssaa > SSAA_CAP {
        ssaa = SSAA_CAP;
    }
    let useful = max_useful_ssaa(color_bits, msaa_samples);
    if ssaa > useful {
        ssaa = useful;
    }
    proof {
        assert forall|u: int|
            is_least_scaled_root(
                u,
                pow2(color_bits as nat) as int,
                max_i(msaa_samples as int, 1),
            ) implies ssaa as int == min_i(spec_capped_ssaa(ssaa_request as int), u) by {
            lemma_least_scaled_root_unique(
                u,
                useful as int,
                pow2(color_bits as nat) as int,
                max_i(msaa_samples as int, 1),
            );
        }
        assert(requested_width * ssaa <= requested_width * spec_capped_ssaa(ssaa_request as int))
            by (nonlinear_arith)
            requires
                requested_width >= 0,
                0 <= ssaa as int <= spec_capped_ssaa(ssaa_request as int),
        ;
        assert(requested_height * ssaa <= requested_height * spec_capped_ssaa(ssaa_request as int))
            by (nonlinear_arith)
            requires
                requested_height >= 0,
                0 <= ssaa as int <= spec_capped_ssaa(ssaa_request as int),
        ;
    }

    let render_width = requested_width * ssaa;
    let render_height = requested_height * ssaa;

    if render_width > surface_width || render_height > surface_height {
        proof {
            assert(requested_width * ssaa >= 1 && requested_height * ssaa >= 1)
                by (nonlinear_arith)
                requires
                    requested_width >= 1,
                    requested_height >= 1,
                    ssaa >= 1,
            ;
            assert(render_width * surface_height <= requested_width * spec_capped_ssaa(
                ssaa_request as int,
            ) * surface_height) by (nonlinear_arith)
                requires
                    0 <= render_width as int <= requested_width * spec_capped_ssaa(
                        ssaa_request as int,
                    ),
                    surface_height >= 0,
            ;
            assert(render_height * surface_width <= requested_height * spec_capped_ssaa(
                ssaa_request as int,
            ) * surface_width) by (nonlinear_arith)
                requires
                    0 <= render_height as int <= requested_height * spec_capped_ssaa(
                        ssaa_request as int,
                    ),
                    surface_width >= 0,
            ;
        }
        let (width, height) = clamp_with_aspect_ratio(
            render_width,
            render_height,
            surface_width,
            surface_height,
        );
        RenderSize { width, height, ssaa }
    } else {
        RenderSize { width: render_width, height: render_height, ssaa }
    }
}

/// One draw of one mesh part: which mesh, which placement record it belongs
/// to, which part of that building it is, the part's local offset, and
/// whether this instance is the first use of its mesh in the pass (and so
/// must build and upload the vertex buffer that later instances reuse).
pub struct SceneInstance {
    pub mesh: MeshHandle,
    pub entry_index: usize,
    pub part_index: usize,
    pub offset_hundredths: (i32, i32, i32),
    pub needs_upload: bool,
}

/// The identity-bearing fields of an instance: mesh handle, offset, entry
/// index and part index.
pub open spec fn instance_views(s: Seq<SceneInstance>) -> Seq<(int, (int, int, int), int, int)> {
    s.map_values(
        |x: SceneInstance|
            (
                x.mesh@,
                (
                    x.offset_hundredths.0 as int,
                    x.offset_hundredths.1 as int,
                    x.offset_hundredths.2 as int,
                ),
                x.entry_index as int,
                x.part_index as int,
            ),
    )
}

/// The internal names of a placement list, in order.
pub open spec fn entry_names(entries: Seq<BlueprintEntry>) -> Seq<Seq<char>> {
    entries.map_values(|e: BlueprintEntry| e.internal_name@)
}

/// The instances one placement contributes: one per resolved part, in part
/// order.
pub open spec fn spec_entry_instances(
    parts: Seq<(int, (int, int, int))>,
    entry_idx: int,
) -> Seq<(int, (int, int, int), int, int)> {
    Seq::new(parts.len(), |j: int| (parts[j].0, parts[j].1, entry_idx, j))
}

/// The instances of the first `upto` placements: each placement contributes
/// the parts its name resolved to, and a name without a cached resolution
/// contributes nothing.
pub open spec fn spec_scene(
    sets: Seq<(Seq<char>, Seq<(int, (int, int, int))>)>,
    names: Seq<Seq<char>>,
    upto: int,
) -> Seq<(int, (int, int, int), int, int)>
    decreases upto,
{
    if upto <= 0 {
        Seq::empty()
    } else {
        spec_scene(sets, names, upto - 1) + (match spec_sets_lookup(sets, names[upto - 1]) {
            Some(parts) => spec_entry_instances(parts, upto - 1),
            None => Seq::empty(),
        })
    }
}

/// An instance needs an upload exactly where no earlier instance already
/// uses its mesh.
pub open spec fn uploads_are_first_uses(s: Seq<SceneInstance>) -> bool {
    forall|i: int|
        0 <= i < s.len() ==> ((#[trigger] s[i]).needs_upload <==> (forall|j: int|
            0 <= j < i ==> (#[trigger] s[j]).mesh@ != s[i].mesh@))
}

/// Geometry dedup: in a pass whose instances all use one mesh, only the
/// first instance uploads it, however many placements there are.
pub proof fn lemma_single_mesh_single_upload(s: Seq<SceneInstance>)
    requires
        uploads_are_first_uses(s),
        forall|i: int, j: int|
            0 <= i < s.len() && 0 <= j < s.len() ==> (#[trigger] s[i]).mesh@ == (
            #[trigger] s[j]).mesh@,
    ensures
        forall|i: int| 0 <= i < s.len() ==> ((#[trigger] s[i]).needs_upload <==> i == 0),
{
    assert forall|i: int| 0 <= i < s.len() implies ((#[trigger] s[i]).needs_upload <==> i
        == 0) by {
        if i == 0 {
            assert(forall|j: int| 0 <= j < 0 ==> (#[trigger] s[j]).mesh@ != s[0].mesh@);
        } else {
            assert(s[0].mesh@ == s[i].mesh@);
        }
    }
}

/// Some instance in `out` draws the mesh with this id.
pub open spec fn mesh_used(out: Seq<SceneInstance>, id: int) -> bool {
    exists|j: int| 0 <= j < out.len() && (#[trigger] out[j]).mesh@ == id
}

/// This id has been recorded in the seen list.
pub open spec fn id_seen(seen: Seq<usize>, id: int) -> bool {
    exists|k: int| 0 <= k < seen.len() && (#[trigger] seen[k]) as int == id
}

/// The seen list records exactly the mesh ids the instances use.
pub open spec fn seen_matches(seen: Seq<usize>, out: Seq<SceneInstance>) -> bool {
    &&& (forall|k: int| 0 <= k < seen.len() ==> mesh_used(out, (#[trigger] seen[k]) as int))
    &&& (forall|j: int| 0 <= j < out.len() ==> id_seen(seen, (#[trigger] out[j]).mesh@))
}

/// Whether `id` is one of the mesh ids seen so far.
fn contains_id(seen: &Vec<usize>, id: usize) -> (r: bool)
    ensures
        r == seen@.contains(id),
{
    let mut i: usize = 0;
    while i < seen.len()
        invariant
            i <= seen@.len(),
            forall|k: int| 0 <= k < i ==> seen@[k] != id,
        decreases seen@.len() - i,
    {
        if seen[i] == id {
            return true;
        }
        i = i + 1;
    }
    proof {
        if seen@.contains(id) {
            let k = choose|k: int| 0 <= k < seen@.len() && seen@[k] == id;
        }
    }
    false
}

/// Walk the placement records and lay out one instance per resolved mesh
/// part, marking on each instance whether it is the first use of its mesh:
/// the number of marked instances equals the number of distinct meshes, not
/// the number of placements, which is what keeps large scenes of repeated
/// buildings cheap to upload.  Placements whose names have no cached
/// resolution, or an empty one, contribute nothing.
#[verifier::loop_isolation(false)]
pub fn plan_instances(loader: &ModelLoader, entries: &Vec<BlueprintEntry>) -> (r: Vec<
    SceneInstance,
>)
    ensures
        instance_views(r@) == spec_scene(
            loader.sets_view(),
            entry_names(entries@),
            entries@.len() as int,
        ),
        uploads_are_first_uses(r@),
{
    let ghost names = entry_names(entries@);
    let mut out: Vec<SceneInstance> = Vec::new();
    let mut seen: Vec<usize> = Vec::new();
    let mut i: usize = 0;
    proof {
        assert(instance_views(out@) =~= spec_scene(loader.sets_view(), names, 0));
    }
    while i < entries.len()
        invariant
            i <= entries@.len(),
            instance_views(out@) == spec_scene(loader.sets_view(), names, i as int),
            uploads_are_first_uses(out@),
            seen_matches(seen@, out@),
        decreases entries@.len() - i,
    {
        match loader.load_model_cached(entries[i].internal_name()) {
            None => {
                proof {
                    assert(spec_sets_lookup(loader.sets_view(), names[i as int]) is None);
                    assert(instance_views(out@) =~= spec_scene(
                        loader.sets_view(),
                        names,
                        i as int + 1,
                    ));
                }
            },
            Some(parts) => {
                let ghost parts_v = model_views(parts@);
                let mut j: usize = 0;
                while j < parts.len()
                    invariant
                        j <= parts@.len(),
                        parts_v == model_views(parts@),
                        instance_views(out@) == spec_scene(loader.sets_view(), names, i as int)
                            + spec_entry_instances(parts_v.take(j as int), i as int),
                        uploads_are_first_uses(out@),
                        seen_matches(seen@, out@),
                    decreases parts@.len() - j,
                {
                    let mesh = parts[j].mesh;
                    let offset = parts[j].offset_hundredths;
                    let fresh = !contains_id(&seen, mesh.id);
                    proof {
                        if fresh {
                            assert forall|jj: int| 0 <= jj < out@.len() implies (
                            #[trigger] out@[jj]).mesh@ != mesh@ by {
                                if out@[jj].mesh@ == mesh@ {
                                    let k = choose|k: int|
                                        0 <= k < seen@.len() && (#[trigger] seen@[k]) as int
                                            == mesh@;
                                    assert(seen@.contains(mesh.id));
                                }
                            }
                        } else {
                            assert(id_seen(seen@, mesh@)) by {
                                let k = choose|k: int| 0 <= k < seen@.len() && seen@[k] == mesh.id;
                                assert((seen@[k]) as int == mesh@);
                            }
                        }
                    }
                    let ghost seen_pre = seen@;
                    if fresh {
                        seen.push(mesh.id);
                    }
                    let ghost out_pre = out@;
                    out.push(
                        SceneInstance {
                            mesh,
                            entry_index: i,
                            part_index: j,
                            offset_hundredths: offset,
                            needs_upload: fresh,
                        },
                    );
                    proof {
                        assert(instance_views(out@) =~= instance_views(out_pre).push(
                            (mesh@, parts_v[j as int].1, i as int, j as int),
                        ));
                        assert(spec_entry_instances(parts_v.take(j as int + 1), i as int)
                            =~= spec_entry_instances(parts_v.take(j as int), i as int).push(
                            (parts_v[j as int].0, parts_v[j as int].1, i as int, j as int),
                        ));
                        assert(instance_views(out@) =~= spec_scene(
                            loader.sets_view(),
                            names,
                            i as int,
                        ) + spec_entry_instances(parts_v.take(j as int + 1), i as int));
                        assert forall|ii: int| 0 <= ii < out@.len() implies ((
                        #[trigger] out@[ii]).needs_upload <==> (forall|jj: int|
                            0 <= jj < ii ==> (#[trigger] out@[jj]).mesh@ != out@[ii].mesh@)) by {
                            if ii < out_pre.len() {
                                assert(out@[ii] == out_pre[ii]);
                                assert(forall|jj: int|
                                    0 <= jj < ii ==> out@[jj] == out_pre[jj]);
                            } else {
                                assert(out@[ii].mesh@ == mesh@);
                                if !fresh {
                                    let k = choose|k: int|
                                        0 <= k < seen_pre.len() && (#[trigger] seen_pre[k]) as int
                                            == mesh@;
                                    assert(mesh_used(out_pre, seen_pre[k] as int));
                                    let jj = choose|jj: int|
                                        0 <= jj < out_pre.len() && (#[trigger] out_pre[jj]).mesh@
                                            == mesh@;
                                    assert(out@[jj].mesh@ == out@[ii].mesh@);
                                } else {
                                    assert(forall|jj: int|
                                        0 <= jj < ii ==> (#[trigger] out@[jj]).mesh@ != mesh@);
                                }
                            }
                        }
                        assert forall|k: int| 0 <= k < seen@.len() implies mesh_used(
                            out@,
                            (#[trigger] seen@[k]) as int,
                        ) by {
                            if k < seen_pre.len() {
                                assert(mesh_used(out_pre, seen_pre[k] as int));
                                let jj = choose|jj: int|
                                    0 <= jj < out_pre.len() && (#[trigger] out_pre[jj]).mesh@
                                        == seen_pre[k] as int;
                                assert((out@[jj]).mesh@ == seen@[k] as int);
                            } else {
                                assert(seen@[k] == mesh.id);
                                assert((out@[out@.len() - 1]).mesh@ == mesh@);
                            }
                        }
                        assert forall|jj: int| 0 <= jj < out@.len() implies id_seen(
                            seen@,
                            (#[trigger] out@[jj]).mesh@,
                        ) by {
                            if jj < out_pre.len() {
                                assert(id_seen(seen_pre, out_pre[jj].mesh@));
                                let k = choose|k: int|
                                    0 <= k < seen_pre.len() && (#[trigger] seen_pre[k]) as int
                                        == out_pre[jj].mesh@;
                                assert((seen@[k]) as int == out@[jj].mesh@);
                            } else {
                                if fresh {
                                    assert((seen@[seen@.len() - 1]) as int == mesh@);
                                } else {
                                    assert(id_seen(seen_pre, mesh@));
                                    let k = choose|k: int|
                                        0 <= k < seen_pre.len() && (#[trigger] seen_pre[k]) as int
                                            == mesh@;
                                    assert((seen@[k]) as int == mesh@);
                                }
                            }
                        }
                    }
                    j = j + 1;
                }
                proof {
                    assert(parts_v.take(parts_v.len() as int) =~= parts_v);
                    assert(spec_sets_lookup(loader.sets_view(), names[i as int]) == Some(parts_v));
                    assert(instance_views(out@) =~= spec_scene(
                        loader.sets_view(),
                        names,
                        i as int + 1,
                    ));
                }
            },
        }
        i = i + 1;
    }
    out
}

/// One pixel row of a packed buffer: `stride` bytes starting at row `i`.
pub open spec fn spec_row(s: Seq<u8>, stride: int, i: int) -> Seq<u8> {
    s.subrange(i * stride, i * stride + stride)
}

/// Flip a packed RGB pixel buffer vertically: row `i` of the result is row
/// `height - 1 - i` of the input, byte for byte.  Rasterizers hand the image
/// back bottom-up; this restores the standard top-left origin.
#[verifier::loop_isolation(false)]
pub fn flip_vertical(pixels: &Vec<u8>, width: usize, height: usize) -> (r: Vec<u8>)
    requires
        pixels@.len() == width * height * 3,
        width * 3 <= usize::MAX,
    ensures
        r@.len() == pixels@.len(),
        forall|i: int|
            0 <= i < height ==> #[trigger] spec_row(r@, width * 3, i) == spec_row(
                pixels@,
                width * 3,
                height - 1 - i,
            ),
{
    let stride: usize = width * 3;
    let pixel_count = pixels.len();
    proof {
        assert(width * height * 3 == (width * 3) * height) by (nonlinear_arith);
        assert(pixel_count == pixels@.len());
    }
    let mut out: Vec<u8> = Vec::new();
    let mut row: usize = height;
    proof {
        assert((height - row) * stride == 0) by (nonlinear_arith)
            requires
                row == height,
        ;
    }
    while row > 0
        invariant
            row <= height,
            out@.len() == (height - row) * stride,
            forall|i: int|
                0 <= i < height - row ==> #[trigger] spec_row(out@, stride as int, i)
                    == spec_row(pixels@, stride as int, height - 1 - i),
        decreases row,
    {
        row = row - 1;
        let ghost dest = height - 1 - row;
        proof {
            assert(row * stride + stride <= pixels@.len()) by (nonlinear_arith)
                requires
                    row < height,
                    stride >= 0,
                    stride == width * 3,
                    pixels@.len() == (width * 3) * height,
            ;
            assert(dest * stride == out@.len());
        }
        let src_base: usize = row * stride;
        let ghost out_pre = out@;
        let mut k: usize = 0;
        while k < stride
            invariant
                k <= stride,
                src_base == row * stride,
                src_base + stride <= pixels@.len(),
                out@ =~= out_pre + pixels@.subrange(src_base as int, src_base + k),
            decreases stride - k,
        {
            out.push(pixels[src_base + k]);
            proof {
                assert(out@ =~= out_pre + pixels@.subrange(src_base as int, src_base + k + 1));
            }
            k = k + 1;
        }
        proof {
            let s = stride as int;
            assert(out@ =~= out_pre + spec_row(pixels@, s, row as int));
            assert(out@.len() == (height - row) * s) by (nonlinear_arith)
                requires
                    out@.len() == out_pre.len() + s,
                    out_pre.len() == (height - row - 1) * s,
            ;
            assert forall|i: int| 0 <= i < height - row implies spec_row(out@, s, i) == spec_row(
                pixels@,
                s,
                height - 1 - i,
            ) by {
                if i < dest {
                    assert((i + 1) * s <= dest * s) by (nonlinear_arith)
                        requires
                            i + 1 <= dest,
                            s >= 0,
                    ;
                    assert(i * s >= 0) by (nonlinear_arith)
                        requires
                            i >= 0,
                            s >= 0,
                    ;
                    assert((i + 1) * s == i * s + s) by (nonlinear_arith);
                    assert(spec_row(out@, s, i) =~= spec_row(out_pre, s, i));
                } else {
                    assert(i == dest);
                    assert(spec_row(out@, s, dest) =~= spec_row(pixels@, s, row as int));
                }
            }
        }
    }
    proof {
        assert((height - 0) * stride == width * height * 3) by (nonlinear_arith)
            requires
                stride == width * 3,
        ;
    }
    out
}

} // verus!
