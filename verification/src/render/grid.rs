//! Debug overlay: the shaders of the infinite grids and axes (drawn as one
//! full-screen triangle each) and of the origin marker, and the index list of
//! line geometry.

use vstd::prelude::*;

verus! {

/// Shader of coloured lines (the origin marker).
pub const LINE_SHADER: &'static str = r#"
struct CameraUniform {
    view_proj: mat4x4<f32>,
    view_pos:  vec4<f32>,
}
@group(0) @binding(0) var<uniform> camera: CameraUniform;
@group(1) @binding(0) var<uniform> model_matrix: mat4x4<f32>;

struct VIn  { @location(0) position: vec3<f32>, @location(1) color: vec3<f32> }
struct VOut { @builtin(position) clip: vec4<f32>, @location(0) color: vec3<f32> }

@vertex
fn vs_main(v: VIn) -> VOut {
    var o: VOut;
    o.clip  = camera.view_proj * model_matrix * vec4<f32>(v.position, 1.0);
    o.color = v.color;
    return o;
}

@fragment
fn fs_main(i: VOut) -> @location(0) vec4<f32> {
    return vec4<f32>(i.color, 1.0);
}
"#;

/// The part shared by the full-screen shaders: camera, full-screen triangle,
/// unprojection and grid-coverage helpers.
pub const FULLSCREEN_HEADER: &'static str = r#"
struct CameraUniform {
    view_proj:     mat4x4<f32>,
    view_pos:      vec4<f32>,
    inv_view_proj: mat4x4<f32>,
}
@group(0) @binding(0) var<uniform> camera: CameraUniform;

struct Params { info: vec4<u32> }   // info.x : id (plan ou axe)
@group(1) @binding(0) var<uniform> params: Params;

struct VOut {
    @builtin(position) clip: vec4<f32>,
    @location(0) near_pt: vec3<f32>,
}

struct FOut {
    @location(0) color: vec4<f32>,
    @builtin(frag_depth) depth: f32,
}

fn unproject(xy: vec2<f32>, z: f32) -> vec3<f32> {
    let p = camera.inv_view_proj * vec4<f32>(xy, z, 1.0);
    return p.xyz / p.w;
}

// Rayon monde du pixel : depuis l'œil, vers le point du plan proche.
// On évite le point du plan lointain (mal conditionné avec un far élevé →
// direction bruitée → les lignes fines "tremblent").
fn pixel_ray_dir(near_pt: vec3<f32>) -> vec3<f32> {
    return normalize(near_pt - camera.view_pos.xyz);
}

@vertex
fn vs_main(@builtin(vertex_index) vid: u32) -> VOut {
    var corners = array<vec2<f32>, 3>(
        vec2<f32>(-1.0, -1.0),
        vec2<f32>( 3.0, -1.0),
        vec2<f32>(-1.0,  3.0),
    );
    let ndc = corners[vid];
    var o: VOut;
    o.clip    = vec4<f32>(ndc, 0.0, 1.0);
    o.near_pt = unproject(ndc, 0.0);
    return o;
}

fn log10(x: f32) -> f32 { return log2(x) / log2(10.0); }

// Couverture antialiasée d'une grille de pas `cell`.
fn grid_cov(coord: vec2<f32>, cell: f32) -> f32 {
    let c = coord / cell;
    let d = fwidth(c);
    let g = abs(fract(c - 0.5) - 0.5) / max(d, vec2<f32>(1e-8));
    return 1.0 - clamp(min(g.x, g.y), 0.0, 1.0);
}
"#;

/// Fragment stage of the infinite grid on one of the XY, XZ or YZ planes.
pub const GRID_FRAGMENT: &'static str = r#"
@fragment
fn fs_main(in: VOut) -> FOut {
    let pid = params.info.x;
    let ro = camera.view_pos.xyz;
    let rd = pixel_ray_dir(in.near_pt);

    var normal: vec3<f32>;
    if (pid == 0u) { normal = vec3<f32>(0.0, 0.0, 1.0); }      // XY
    else if (pid == 1u) { normal = vec3<f32>(0.0, 1.0, 0.0); } // XZ (sol)
    else { normal = vec3<f32>(1.0, 0.0, 0.0); }                // YZ

    let denom = dot(rd, normal);
    let safe  = select(denom, 1e-6, abs(denom) < 1e-6);
    let t     = -dot(ro, normal) / safe;
    if (t <= 0.0) { discard; }
    let world = ro + t * rd;

    let cam = camera.view_pos.xyz;
    var coord: vec2<f32>;
    var camc:  vec2<f32>;
    if (pid == 0u) { coord = world.xy; camc = cam.xy; }
    else if (pid == 1u) { coord = world.xz; camc = cam.xz; }
    else { coord = world.yz; camc = cam.yz; }

    // LOD continu : cellule = puissance de 10 telle que les lignes fines fassent
    // au moins ~8 px (jamais d'aliasing), avec fondu doux entre décades (pas de
    // "pop"). Permet des cellules < 1 unité en zoom rapproché.
    let w_pp = max(fwidth(coord).x, fwidth(coord).y); // unités monde par pixel
    let lod  = log10(max(w_pp * 8.0, 1e-8));
    let f    = ceil(lod) - lod;        // fondu du niveau fin dans la décade
    let c0   = pow(10.0, ceil(lod));   // cellules fines (≥ ~8 px)
    let c1   = c0 * 10.0;              // cellules larges (toutes les 10)

    let g0 = grid_cov(coord, c0);
    let g1 = grid_cov(coord, c1);
    let intensity = max(g1, g0 * f);

    // Fondu radial (en cellules → rayon écran ~constant) + fondu rasant.
    let radial = length(coord - camc) / c1;
    let fade   = 1.0 - smoothstep(25.0, 55.0, radial);
    let graze  = abs(dot(normalize(rd), normal));
    let gfade  = smoothstep(0.0, 0.10, graze);

    let alpha = intensity * fade * gfade;
    if (alpha < 0.003) { discard; }

    let color = vec3<f32>(0.36, 0.38, 0.43);
    let clip  = camera.view_proj * vec4<f32>(world, 1.0);

    var out: FOut;
    out.depth = clamp(clip.z / clip.w, 0.0, 1.0);
    out.color = vec4<f32>(color, alpha);
    return out;
}
"#;

/// Fragment stage of one infinite coloured axis.
pub const AXIS_FRAGMENT: &'static str = r#"
@fragment
fn fs_main(in: VOut) -> FOut {
    let aid = params.info.x;
    var d: vec3<f32>;
    var color: vec3<f32>;
    if (aid == 0u) { d = vec3<f32>(1.0, 0.0, 0.0); color = vec3<f32>(0.91, 0.30, 0.34); }
    else if (aid == 1u) { d = vec3<f32>(0.0, 1.0, 0.0); color = vec3<f32>(0.55, 0.78, 0.27); }
    else { d = vec3<f32>(0.0, 0.0, 1.0); color = vec3<f32>(0.27, 0.49, 0.90); }

    let ro = camera.view_pos.xyz;
    let rd = pixel_ray_dir(in.near_pt);

    // Points/distance les plus proches entre le rayon (ro, rd) et l'axe (0, d).
    // Méthode stable : aucune sélection de plan (donc pas de clignotement).
    let b     = dot(rd, d);
    let denom = max(1.0 - b * b, 1e-6);   // → 0 si on regarde le long de l'axe
    let rdo   = dot(rd, ro);
    let dro   = dot(d, ro);
    let sc    = (b * dro - rdo) / denom;  // paramètre le long du rayon
    let tc    = (dro - b * rdo) / denom;  // paramètre le long de l'axe

    let pr = ro + sc * rd;                // point du rayon le plus proche
    let pa = tc * d;                      // point de l'axe le plus proche
    let dist = length(pr - pa);           // distance rayon ↔ axe (monde)

    let dpix = fwidth(dist);
    let cov  = 1.0 - clamp(dist / max(dpix * 1.5, 1e-8), 0.0, 1.0);

    if (sc <= 0.0 || cov < 0.01) { discard; }

    let clip = camera.view_proj * vec4<f32>(pa, 1.0);
    var out: FOut;
    out.depth = clamp(clip.z / clip.w, 0.0, 1.0);
    out.color = vec4<f32>(color, cov);
    return out;
}
"#;

/// The full-screen shader of the infinite grids.
pub fn grid_shader() -> (s: String)
    ensures
        s@ == FULLSCREEN_HEADER@ + GRID_FRAGMENT@,
{
    let mut s = String::from_str(FULLSCREEN_HEADER);
    s.append(GRID_FRAGMENT);
    s
}

/// The full-screen shader of the infinite axes.
pub fn axis_shader() -> (s: String)
    ensures
        s@ == FULLSCREEN_HEADER@ + AXIS_FRAGMENT@,
{
    let mut s = String::from_str(FULLSCREEN_HEADER);
    s.append(AXIS_FRAGMENT);
    s
}

/// `2k mod 2^16` is even, so `2k + 1` is one more modulo 2^16.
proof fn lemma_even_mod(k: int)
    requires
        k >= 0,
    ensures
        (2 * k) % 0x1_0000 + 1 < 0x1_0000,
        (2 * k + 1) % 0x1_0000 == (2 * k) % 0x1_0000 + 1,
{
    let q = (2 * k) / 0x1_0000;
    let r = (2 * k) % 0x1_0000;
    assert(2 * k == q * 0x1_0000 + r && 0 <= r < 0x1_0000);
    assert(r % 2 == 0) by (nonlinear_arith)
        requires
            2 * k == q * 0x1_0000 + r,
            0 <= r < 0x1_0000,
    ;
    assert(2 * k + 1 == q * 0x1_0000 + (r + 1));
    assert((2 * k + 1) % 0x1_0000 == r + 1) by (nonlinear_arith)
        requires
            2 * k + 1 == q * 0x1_0000 + (r + 1),
            0 <= r + 1 < 0x1_0000,
            q >= 0,
    ;
}

/// The indices of `segment_count` line segments whose two vertices are
/// stored one after the other: segment `k` joins vertices `2k` and `2k + 1`
/// (numbers taken modulo 2^16, as the indices are 16-bit).
pub fn segment_indices(segment_count: usize) -> (r: Vec<u16>)
    requires
        2 * segment_count <= usize::MAX,
    ensures
        r@.len() == 2 * segment_count,
        forall|j: int| 0 <= j < r@.len() ==> #[trigger] r@[j] == (j % 0x1_0000) as u16,
{
    let mut indices: Vec<u16> = Vec::new();
    let mut k: usize = 0;
    while k < segment_count
        invariant
            k <= segment_count,
            2 * segment_count <= usize::MAX,
            indices@.len() == 2 * k,
            forall|j: int| 0 <= j < indices@.len() ==> #[trigger] indices@[j] == (j % 0x1_0000) as u16,
        decreases segment_count - k,
    {
        let wide = (2 * k) % 0x1_0000;
        proof {
            lemma_even_mod(k as int);
        }
        let base = wide as u16;
        indices.push(base);
        indices.push(base + 1);
        k = k + 1;
    }
    indices
}

} // verus!
