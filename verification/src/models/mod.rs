//! Scene data: typed asset handles, mesh renderers, and the scene that pairs
//! each entity with a transform and an optional mesh renderer.

use std::marker::PhantomData;
use vstd::prelude::*;

verus! {

/// A typed index into a list of assets of type `T`.
pub struct Handle<T> {
    pub index: u32,
    pub generation: u32,
    pub _marker: PhantomData<T>,
}

impl<T> Handle<T> {
    /// A handle to the asset at `index`, generation 0.
    pub fn new(index: u32) -> (h: Self)
        ensures
            h.index == index,
            h.generation == 0,
    {
        Self { index, generation: 0, _marker: PhantomData }
    }
}

impl<T> Clone for Handle<T> {
    fn clone(&self) -> (h: Self)
        ensures
            h == *self,
    {
        *self
    }
}

impl<T> Copy for Handle<T> {
}

impl<T> PartialEq for Handle<T> {
    fn eq(&self, other: &Self) -> (r: bool) {
        self.index == other.index && self.generation == other.generation
    }
}

impl<T> vstd::std_specs::cmp::PartialEqSpecImpl for Handle<T> {
    open spec fn obeys_eq_spec() -> bool {
        true
    }

    open spec fn eq_spec(&self, other: &Self) -> bool {
        self.index == other.index && self.generation == other.generation
    }
}

impl<T> Eq for Handle<T> {
}

/// An entity of the scene: its position in the scene's lists.
#[derive(Copy, Clone, PartialEq, Eq, Structural, Hash, Debug)]
pub struct Entity(pub u32);

/// The mesh and material an entity is drawn with.
pub struct MeshRenderer<M, Mat> {
    pub mesh: Handle<M>,
    pub material: Handle<Mat>,
}

impl<M, Mat> Clone for MeshRenderer<M, Mat> {
    fn clone(&self) -> (r: Self)
        ensures
            r == *self,
    {
        *self
    }
}

impl<M, Mat> Copy for MeshRenderer<M, Mat> {
}

/// The kind of asset that drawing a renderer looks up.
#[derive(Copy, Clone, PartialEq, Eq, Structural, Debug)]
pub enum AssetKind {
    Mesh,
    Material,
}

/// An asset that a draw looks up and that is not loaded: its kind and index.
#[derive(Copy, Clone, PartialEq, Eq, Structural, Debug)]
pub struct MissingAsset {
    pub kind: AssetKind,
    pub index: u32,
}

/// The asset that drawing `r` misses, with `meshes` meshes and `materials`
/// materials loaded, if any: its mesh is looked up first, then its material.
pub open spec fn missing_for<M, Mat>(r: MeshRenderer<M, Mat>, meshes: nat, materials: nat) -> Option<MissingAsset> {
    if r.mesh.index >= meshes {
        Some(MissingAsset { kind: AssetKind::Mesh, index: r.mesh.index })
    } else if r.material.index >= materials {
        Some(MissingAsset { kind: AssetKind::Material, index: r.material.index })
    } else {
        None
    }
}

/// The first asset missed when drawing the renderers `rs` in order, if any.
pub open spec fn first_missing<M, Mat>(rs: Seq<MeshRenderer<M, Mat>>, meshes: nat, materials: nat) -> Option<MissingAsset>
    decreases rs.len(),
{
    if rs.len() == 0 {
        None
    } else {
        match missing_for(rs[0], meshes, materials) {
            Some(m) => Some(m),
            None => first_missing(rs.drop_first(), meshes, materials),
        }
    }
}

/// The first asset that drawing `renderers` in order looks up and does not
/// find, with `meshes` meshes and `materials` materials loaded; `None` when
/// every lookup succeeds.
pub fn find_missing_asset<M, Mat>(renderers: &Vec<MeshRenderer<M, Mat>>, meshes: usize, materials: usize) -> (r: Option<
    MissingAsset,
>)
    ensures
        r == first_missing(renderers@, meshes as nat, materials as nat),
        r is None <==> forall|i: int|
            0 <= i < renderers@.len() ==> (#[trigger] renderers@[i]).mesh.index < meshes
                && renderers@[i].material.index < materials,
{
    let ghost rs = renderers@;
    proof {
        assert(rs.subrange(0, rs.len() as int) =~= rs);
    }
    let mut i: usize = 0;
    while i < renderers.len()
        invariant
            rs == renderers@,
            i <= rs.len(),
            forall|k: int|
                0 <= k < i ==> (#[trigger] rs[k]).mesh.index < meshes && rs[k].material.index < materials,
            first_missing(rs, meshes as nat, materials as nat) == first_missing(
                rs.subrange(i as int, rs.len() as int),
                meshes as nat,
                materials as nat,
            ),
        decreases rs.len() - i,
    {
        let r = &renderers[i];
        let ghost rest = rs.subrange(i as int, rs.len() as int);
        proof {
            assert(rest[0] == rs[i as int]);
            assert(rest.drop_first() =~= rs.subrange(i + 1, rs.len() as int));
        }
        if r.mesh.index as usize >= meshes {
            proof {
                lemma_first_missing_none_gives_all(rs, meshes as nat, materials as nat);
            }
            return Some(MissingAsset { kind: AssetKind::Mesh, index: r.mesh.index });
        }
        if r.material.index as usize >= materials {
            proof {
                lemma_first_missing_none_gives_all(rs, meshes as nat, materials as nat);
            }
            return Some(MissingAsset { kind: AssetKind::Material, index: r.material.index });
        }
        i = i + 1;
    }
    proof {
        assert(rs.subrange(i as int, rs.len() as int).len() == 0);
    }
    None
}

/// When no asset is missed, every renderer's mesh and material are loaded.
proof fn lemma_first_missing_none_gives_all<M, Mat>(rs: Seq<MeshRenderer<M, Mat>>, meshes: nat, materials: nat)
    ensures
        first_missing(rs, meshes, materials) is None ==> forall|i: int|
            0 <= i < rs.len() ==> (#[trigger] rs[i]).mesh.index < meshes && rs[i].material.index < materials,
    decreases rs.len(),
{
    if rs.len() > 0 {
        lemma_first_missing_none_gives_all(rs.drop_first(), meshes, materials);
        if first_missing(rs, meshes, materials) is None {
            assert forall|i: int| 0 <= i < rs.len() implies (#[trigger] rs[i]).mesh.index < meshes
                && rs[i].material.index < materials by {
                if i > 0 {
                    assert(rs[i] == rs.drop_first()[i - 1]);
                }
            }
        }
    }
}

/// The scene: one entry per entity in each list, at the entity's index.
pub struct Scene<Tr, M, Mat> {
    pub entities: Vec<Entity>,
    pub transforms: Vec<Tr>,
    pub mesh_renderers: Vec<Option<MeshRenderer<M, Mat>>>,
}

/// The `(renderer, transform)` pairs of the first `n` entities that have a
/// mesh renderer and a transform, in entity order.
pub open spec fn render_entries<Tr, M, Mat>(
    renderers: Seq<Option<MeshRenderer<M, Mat>>>,
    transforms: Seq<Tr>,
    n: nat,
) -> Seq<(MeshRenderer<M, Mat>, Tr)>
    decreases n,
{
    if n == 0 {
        Seq::empty()
    } else {
        let prev = render_entries(renderers, transforms, (n - 1) as nat);
        let i = n - 1;
        if i < renderers.len() && renderers[i] is Some && i < transforms.len() {
            prev.push((renderers[i].unwrap(), transforms[i]))
        } else {
            prev
        }
    }
}

impl<Tr, M, Mat> Scene<Tr, M, Mat> {
    pub fn new() -> (s: Self)
        ensures
            s.entities@ == Seq::<Entity>::empty(),
            s.transforms@ == Seq::<Tr>::empty(),
            s.mesh_renderers@ == Seq::<Option<MeshRenderer<M, Mat>>>::empty(),
    {
        Self { entities: Vec::new(), mesh_renderers: Vec::new(), transforms: Vec::new() }
    }

    /// Adds an entity drawn with `mesh` and `material` at `transform`; its
    /// number is the number of entities before it.
    pub fn add_mesh_renderer(&mut self, transform: Tr, mesh: Handle<M>, material: Handle<Mat>) -> (e: Entity)
        ensures
            e == Entity(old(self).entities@.len() as u32),
            final(self).entities@ == old(self).entities@.push(e),
            final(self).transforms@ == old(self).transforms@.push(transform),
            final(self).mesh_renderers@ == old(self).mesh_renderers@.push(
                Some(MeshRenderer { mesh, material }),
            ),
    {
        let entity = Entity(#[verifier::truncate] (self.entities.len() as u32));
        self.entities.push(entity);
        self.transforms.push(transform);
        self.mesh_renderers.push(Some(MeshRenderer { mesh, material }));
        entity
    }

    /// The mesh renderer and transform of every entity that has both, in
    /// entity order.
    pub fn renderable(&self) -> (r: Vec<(MeshRenderer<M, Mat>, Tr)>) where Tr: Copy
        ensures
            r@ == render_entries(self.mesh_renderers@, self.transforms@, self.mesh_renderers@.len()),
            exists|ix: Seq<int>|
                lists_drawn(r@, self.mesh_renderers@, self.transforms@, self.mesh_renderers@.len(), ix),
    {
        proof {
            lemma_render_entries_exact(self.mesh_renderers@, self.transforms@, self.mesh_renderers@.len());
        }
        let mut items: Vec<(MeshRenderer<M, Mat>, Tr)> = Vec::new();
        let mut i: usize = 0;
        while i < self.mesh_renderers.len()
            invariant
                i <= self.mesh_renderers@.len(),
                items@ == render_entries(self.mesh_renderers@, self.transforms@, i as nat),
            decreases self.mesh_renderers@.len() - i,
        {
            if let Some(renderer) = &self.mesh_renderers[i] {
                if i < self.transforms.len() {
                    items.push((*renderer, self.transforms[i]));
                }
            }
            i = i + 1;
        }
        items
    }
}

/// Entities added with `add_mesh_renderer` are numbered by their position:
/// when the three lists of a scene have the same length, adding an entity
/// keeps them so, and its transform and renderer sit at its index.
pub proof fn lemma_scene_parallel<Tr, M, Mat>(
    entities: Seq<Entity>,
    transforms: Seq<Tr>,
    renderers: Seq<Option<MeshRenderer<M, Mat>>>,
    transform: Tr,
    renderer: MeshRenderer<M, Mat>,
)
    requires
        entities.len() == transforms.len(),
        entities.len() == renderers.len(),
        entities.len() <= u32::MAX,
    ensures
        ({
            let e = Entity(entities.len() as u32);
            let ents = entities.push(e);
            let ts = transforms.push(transform);
            let rs = renderers.push(Some(renderer));
            &&& ents.len() == ts.len() && ents.len() == rs.len()
            &&& ts[e.0 as int] == transform
            &&& rs[e.0 as int] == Some(renderer)
            &&& render_entries(rs, ts, rs.len()) == render_entries(renderers, transforms, renderers.len()).push(
                (renderer, transform),
            )
        }),
{
    let ts = transforms.push(transform);
    let rs = renderers.push(Some(renderer));
    lemma_render_entries_prefix(renderers, transforms, rs, ts, renderers.len());
}

/// `render_entries` over the first `n` entities only looks at those entities.
proof fn lemma_render_entries_prefix<Tr, M, Mat>(
    r1: Seq<Option<MeshRenderer<M, Mat>>>,
    t1: Seq<Tr>,
    r2: Seq<Option<MeshRenderer<M, Mat>>>,
    t2: Seq<Tr>,
    n: nat,
)
    requires
        n <= r1.len(),
        n <= t1.len(),
        r1.len() <= r2.len(),
        t1.len() <= t2.len(),
        forall|i: int| 0 <= i < r1.len() ==> r2[i] == r1[i],
        forall|i: int| 0 <= i < t1.len() ==> t2[i] == t1[i],
    ensures
        render_entries(r1, t1, n) == render_entries(r2, t2, n),
    decreases n,
{
    if n > 0 {
        lemma_render_entries_prefix(r1, t1, r2, t2, (n - 1) as nat);
    }
}

/// Entity `i` is drawn: it has a mesh renderer and a transform.
pub open spec fn is_drawn<Tr, M, Mat>(renderers: Seq<Option<MeshRenderer<M, Mat>>>, transforms: Seq<Tr>, i: int) -> bool {
    0 <= i < renderers.len() && renderers[i] is Some && i < transforms.len()
}

/// `items` lists, through the strictly increasing entity numbers `ix`, the
/// renderer and transform of exactly the drawn entities below `n`.
pub open spec fn lists_drawn<Tr, M, Mat>(
    items: Seq<(MeshRenderer<M, Mat>, Tr)>,
    renderers: Seq<Option<MeshRenderer<M, Mat>>>,
    transforms: Seq<Tr>,
    n: nat,
    ix: Seq<int>,
) -> bool {
    &&& ix.len() == items.len()
    &&& forall|k: int| 0 <= k < ix.len() ==> 0 <= #[trigger] ix[k] < n && is_drawn(renderers, transforms, ix[k])
    &&& forall|k: int|
        0 <= k < ix.len() ==> #[trigger] items[k] == (renderers[ix[k]].unwrap(), transforms[ix[k]])
    &&& forall|k1: int, k2: int| 0 <= k1 < k2 < ix.len() ==> #[trigger] ix[k1] < #[trigger] ix[k2]
    &&& forall|i: int| 0 <= i < n && #[trigger] is_drawn(renderers, transforms, i) ==> ix.contains(i)
}

/// The render entries of the first `n` entities are the renderer and
/// transform of every drawn entity below `n`, each once, in entity order.
pub proof fn lemma_render_entries_exact<Tr, M, Mat>(
    renderers: Seq<Option<MeshRenderer<M, Mat>>>,
    transforms: Seq<Tr>,
    n: nat,
)
    ensures
        exists|ix: Seq<int>| lists_drawn(render_entries(renderers, transforms, n), renderers, transforms, n, ix),
    decreases n,
{
    if n == 0 {
        assert(lists_drawn(render_entries(renderers, transforms, n), renderers, transforms, n, Seq::<int>::empty()));
    } else {
        let m = (n - 1) as nat;
        lemma_render_entries_exact(renderers, transforms, m);
        let prev = render_entries(renderers, transforms, m);
        let ix = choose|ix: Seq<int>| lists_drawn(prev, renderers, transforms, m, ix);
        let items = render_entries(renderers, transforms, n);
        if is_drawn(renderers, transforms, m as int) {
            let ix2 = ix.push(m as int);
            assert(items == prev.push((renderers[m as int].unwrap(), transforms[m as int])));
            assert forall|i: int| 0 <= i < n && #[trigger] is_drawn(renderers, transforms, i) implies ix2.contains(i) by {
                if i == m {
                    assert(ix2[ix.len() as int] == i);
                } else {
                    let k = choose|k: int| 0 <= k < ix.len() && ix[k] == i;
                    assert(ix2[k] == i);
                }
            }
            assert forall|k: int| 0 <= k < ix2.len() implies #[trigger] items[k] == (renderers[ix2[k]].unwrap(), transforms[ix2[k]]) by {
                if k < ix.len() {
                    assert(items[k] == prev[k]);
                }
            }
            assert(lists_drawn(items, renderers, transforms, n, ix2));
        } else {
            assert(items == prev);
            assert forall|i: int| 0 <= i < n && #[trigger] is_drawn(renderers, transforms, i) implies ix.contains(i) by {
                assert(i != m);
            }
            assert(lists_drawn(items, renderers, transforms, n, ix));
        }
    }
}

/// An entity without a renderer or a transform adds nothing to the render
/// entries and removes nothing from them; a drawn entity adds its own pair
/// after those of the entities before it.
pub proof fn lemma_render_entries_step<Tr, M, Mat>(
    renderers: Seq<Option<MeshRenderer<M, Mat>>>,
    transforms: Seq<Tr>,
    n: nat,
)
    ensures
        !is_drawn(renderers, transforms, n as int) ==> render_entries(renderers, transforms, n + 1) == render_entries(
            renderers,
            transforms,
            n,
        ),
        is_drawn(renderers, transforms, n as int) ==> render_entries(renderers, transforms, n + 1) == render_entries(
            renderers,
            transforms,
            n,
        ).push((renderers[n as int].unwrap(), transforms[n as int])),
{
}

} // verus!
