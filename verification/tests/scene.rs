use alengine::models::{find_missing_asset, AssetKind, Entity, Handle, MeshRenderer, MissingAsset, Scene};

struct MeshTag;
struct MaterialTag;

#[test]
fn handles_compare_by_index_and_generation() {
    let a: Handle<MeshTag> = Handle::new(3);
    let b: Handle<MeshTag> = Handle::new(3);
    let c: Handle<MeshTag> = Handle::new(4);
    assert_eq!(a.index, 3);
    assert_eq!(a.generation, 0);
    assert!(a == b);
    assert!(a != c);
    let d = a;
    assert!(d == a);
}

#[test]
fn add_mesh_renderer_numbers_entities() {
    let mut scene: Scene<[i32; 2], MeshTag, MaterialTag> = Scene::new();
    let e0 = scene.add_mesh_renderer([1, 2], Handle::new(0), Handle::new(0));
    let e1 = scene.add_mesh_renderer([3, 4], Handle::new(1), Handle::new(5));
    assert_eq!(e0, Entity(0));
    assert_eq!(e1, Entity(1));
    assert_eq!(scene.entities, vec![Entity(0), Entity(1)]);
    assert_eq!(scene.transforms, vec![[1, 2], [3, 4]]);
    let items = scene.renderable();
    assert_eq!(items.len(), 2);
    assert_eq!(items[1].0.mesh.index, 1);
    assert_eq!(items[1].0.material.index, 5);
    assert_eq!(items[1].1, [3, 4]);
}

#[test]
fn renderable_skips_entities_without_renderer_or_transform() {
    let mut scene: Scene<u8, MeshTag, MaterialTag> = Scene::new();
    scene.add_mesh_renderer(7, Handle::new(0), Handle::new(0));
    scene.add_mesh_renderer(8, Handle::new(1), Handle::new(1));
    scene.mesh_renderers[0] = None;
    scene.transforms.pop();
    assert!(scene.renderable().is_empty());
    let empty: Scene<u8, MeshTag, MaterialTag> = Scene::new();
    assert!(empty.renderable().is_empty());
}

#[test]
fn every_asset_found_means_no_missing_asset() {
    let rs: Vec<MeshRenderer<MeshTag, MaterialTag>> = vec![
        MeshRenderer { mesh: Handle::new(0), material: Handle::new(1) },
        MeshRenderer { mesh: Handle::new(2), material: Handle::new(0) },
    ];
    assert_eq!(find_missing_asset(&rs, 3, 2), None);
    assert_eq!(find_missing_asset(&Vec::<MeshRenderer<MeshTag, MaterialTag>>::new(), 0, 0), None);
}

#[test]
fn the_first_missing_asset_is_reported() {
    let rs: Vec<MeshRenderer<MeshTag, MaterialTag>> = vec![
        MeshRenderer { mesh: Handle::new(0), material: Handle::new(5) },
        MeshRenderer { mesh: Handle::new(7), material: Handle::new(0) },
    ];
    assert_eq!(
        find_missing_asset(&rs, 1, 1),
        Some(MissingAsset { kind: AssetKind::Material, index: 5 })
    );
    assert_eq!(
        find_missing_asset(&rs, 1, 6),
        Some(MissingAsset { kind: AssetKind::Mesh, index: 7 })
    );
    let both: Vec<MeshRenderer<MeshTag, MaterialTag>> =
        vec![MeshRenderer { mesh: Handle::new(4), material: Handle::new(9) }];
    assert_eq!(
        find_missing_asset(&both, 0, 0),
        Some(MissingAsset { kind: AssetKind::Mesh, index: 4 })
    );
}
