use std::collections::HashSet;
use voxxel_engine::files::file_manager::{FileManager, Mount};
use voxxel_engine::files::path::{DirPolicy, LogicalPath, ResourcePath};
use voxxel_engine::files::FileError;
use voxxel_engine::graphics::material::{Material, TextureBinding};
use voxxel_engine::graphics::shader::Shader;
use voxxel_engine::graphics::texture::{Texture, TextureAtlas};
use voxxel_engine::input::input::{Input, InputSource};
use voxxel_engine::render::renderer::{Bound, Rebind, Renderer};
use voxxel_engine::resource::handle::Handle;

#[derive(Clone, Copy, PartialEq, Eq, Hash)]
enum Place {
    Shaders,
    Levels,
    Saves,
}

impl LogicalPath for Place {
    fn location(&self) -> ResourcePath {
        self.resource_path()
    }

    fn resource_path(&self) -> ResourcePath {
        match self {
            Place::Shaders => ResourcePath {
                mount: Mount::Engine,
                policy: DirPolicy::Required,
                relative_path: String::from("shaders"),
            },
            Place::Levels => ResourcePath {
                mount: Mount::Game,
                policy: DirPolicy::Optional,
                relative_path: String::from("levels"),
            },
            Place::Saves => ResourcePath {
                mount: Mount::User,
                policy: DirPolicy::AutoCreate,
                relative_path: String::from("saves"),
            },
        }
    }
}

#[test]
fn handles_compare_by_identifier() {
    let a: Handle<Shader> = Handle::new(7);
    let b: Handle<Shader> = Handle::new(7);
    let c: Handle<Shader> = Handle::new(8);
    assert_eq!(a.id(), 7);
    assert!(a == b);
    assert!(a != c);
    let copy = a;
    assert!(copy == a);
    assert!(a.clone() == a);
    let mut seen = HashSet::new();
    seen.insert(a);
    assert!(seen.contains(&b));
    assert!(!seen.contains(&c));
}

#[test]
fn material_starts_without_textures_and_collects_them_in_order() {
    let shader: Handle<Shader> = Handle::new(3);
    let material = Material::new(shader);
    assert!(material.shader == shader);
    assert_eq!(material.textures.len(), 0);

    let material = material
        .with_texture(0, "uAtlas", TextureBinding::Array(Handle::new(11)))
        .with_texture(2, "uLight", TextureBinding::Texture3D(Handle::new(12)))
        .with_texture(1, "uNoise", TextureBinding::Texture2D(Handle::new(13)));
    assert!(material.shader == shader);
    assert_eq!(material.textures.len(), 3);
    assert_eq!(material.textures[0].slot, 0);
    assert_eq!(material.textures[0].uniform_name, "uAtlas");
    assert!(matches!(material.textures[0].binding, TextureBinding::Array(h) if h.id() == 11));
    assert_eq!(material.textures[1].slot, 2);
    assert_eq!(material.textures[1].uniform_name, "uLight");
    assert!(matches!(material.textures[1].binding, TextureBinding::Texture3D(h) if h.id() == 12));
    assert_eq!(material.textures[2].slot, 1);
    assert!(matches!(material.textures[2].binding, TextureBinding::Texture2D(h) if h.id() == 13));
}

#[test]
fn renderer_binds_only_what_changed() {
    let renderer = Renderer::new();
    let mut bound = renderer.unbound();
    assert_eq!(bound, Bound { shader: 0, material: u32::MAX });

    // First draw: everything is new.
    assert_eq!(renderer.plan_draw(&mut bound, 4, 9), Rebind { shader: true, textures: true });
    assert_eq!(bound, Bound { shader: 4, material: 9 });
    // Same shader, same material: nothing to do.
    assert_eq!(renderer.plan_draw(&mut bound, 4, 9), Rebind { shader: false, textures: false });
    // Same shader, other material: textures only.
    assert_eq!(renderer.plan_draw(&mut bound, 4, 10), Rebind { shader: false, textures: true });
    assert_eq!(bound, Bound { shader: 4, material: 10 });
    // Other shader, same material: the shader change unbinds the textures.
    assert_eq!(renderer.plan_draw(&mut bound, 5, 10), Rebind { shader: true, textures: true });
    assert_eq!(bound, Bound { shader: 5, material: 10 });
}

#[test]
fn renderer_takes_shader_zero_and_the_last_material_as_bound() {
    let renderer = Renderer::new();
    let mut bound = renderer.unbound();
    assert_eq!(renderer.plan_draw(&mut bound, 0, 1), Rebind { shader: false, textures: true });
    assert_eq!(bound, Bound { shader: 0, material: 1 });
    let mut bound = renderer.unbound();
    assert_eq!(
        renderer.plan_draw(&mut bound, 6, u32::MAX),
        Rebind { shader: true, textures: false }
    );
    assert_eq!(bound, Bound { shader: 6, material: u32::MAX });
}

#[test]
fn atlas_takes_its_size_from_the_texture() {
    let texture = Texture { id: 5, width: 64, height: 48, target: 3553 };
    let atlas = TextureAtlas::from_texture(texture, (16, 16));
    assert_eq!(atlas.texture.id, 5);
    assert_eq!(atlas.tile_size, (16, 16));
    assert_eq!(atlas.atlas_size, (64, 48));
}

#[test]
fn atlas_tiles_lie_inside_the_atlas() {
    let texture = Texture { id: 5, width: 64, height: 48, target: 3553 };
    let atlas = TextureAtlas::from_texture(texture, (16, 16));
    assert_eq!(atlas.tile_origin(0, 0), Some((0, 0)));
    assert_eq!(atlas.tile_origin(3, 2), Some((48, 32)));
    assert_eq!(atlas.tile_origin(4, 0), None);
    assert_eq!(atlas.tile_origin(0, 3), None);
    assert_eq!(atlas.tile_origin(u32::MAX, 0), None);
    let uneven = TextureAtlas::from_texture(texture, (20, 48));
    assert_eq!(uneven.tile_origin(2, 0), Some((40, 0)));
    assert_eq!(uneven.tile_origin(3, 0), None);
    let empty = TextureAtlas::from_texture(texture, (0, 0));
    assert_eq!(empty.tile_origin(1000, 1000), Some((0, 0)));
}

#[test]
fn file_manager_joins_mount_point_location_and_file() {
    let manager: FileManager<Place> = FileManager::with_root("srv", "voxels");
    assert_eq!(manager.locate(Place::Shaders, "basic.vert"), "srv/engine_assets/shaders/basic.vert");
    assert_eq!(manager.locate(Place::Levels, "one.lvl"), "srv/game_assets/voxels/levels/one.lvl");
    assert_eq!(manager.locate(Place::Saves, "slot1"), "srv/user_data/voxels/saves/slot1");
}

#[test]
fn file_manager_lets_an_absolute_part_replace_what_comes_before() {
    let manager: FileManager<Place> = FileManager::with_root("srv", "voxels");
    assert_eq!(manager.locate(Place::Shaders, "/etc/basic.vert"), "/etc/basic.vert");
}

#[test]
fn file_manager_resolves_what_exists() {
    let manager: FileManager<Place> = FileManager::with_root("srv", "voxels");
    match manager.resolve(Place::Levels, "one.lvl", true) {
        Ok(path) => assert_eq!(path, "srv/game_assets/voxels/levels/one.lvl"),
        Err(_) => panic!("an existing path resolves"),
    }
    assert!(matches!(manager.resolve(Place::Shaders, "basic.vert", true), Ok(_)));
}

#[test]
fn file_manager_reports_what_is_missing_by_policy() {
    let manager: FileManager<Place> = FileManager::with_root("srv", "voxels");
    assert!(matches!(
        manager.resolve(Place::Shaders, "basic.vert", false),
        Err(FileError::MissingRequired)
    ));
    assert!(matches!(manager.resolve(Place::Levels, "one.lvl", false), Err(FileError::NotFound)));
    assert!(matches!(manager.resolve(Place::Saves, "slot1", false), Err(FileError::NotFound)));
}

#[test]
fn input_starts_with_nothing_down() {
    let input = Input::new();
    assert!(!input.is_key_down(4));
    assert!(!input.is_key_pressed(4));
    assert!(!input.is_mouse_down(1));
    assert!(!input.is_mouse_pressed(1));
}

#[test]
fn input_key_is_pressed_only_in_the_frame_it_went_down() {
    let mut input = Input::new();
    input.set_key(26, true);
    assert!(input.is_key_down(26));
    assert!(input.is_key_pressed(26));
    assert!(!input.is_key_down(27));
    // The mouse has its own codes.
    assert!(!input.is_mouse_down(26));

    input.update();
    assert!(input.is_key_down(26));
    assert!(!input.is_key_pressed(26));

    input.set_key(26, false);
    assert!(!input.is_key_down(26));
    assert!(!input.is_key_pressed(26));
    input.update();
    assert!(!input.is_key_down(26));
}

#[test]
fn input_key_held_over_a_frame_is_not_pressed_again_within_it() {
    let mut input = Input::new();
    input.set_key(7, true);
    input.update();
    // Released and pressed again before the frame ends: it was down when the
    // frame began, so this is no new press.
    input.set_key(7, false);
    input.set_key(7, true);
    assert!(input.is_key_down(7));
    assert!(!input.is_key_pressed(7));
    // Pressed and released within one frame: not down, so not pressed.
    input.set_key(9, true);
    input.set_key(9, false);
    assert!(!input.is_key_down(9));
    assert!(!input.is_key_pressed(9));
    // Setting what is already set changes nothing.
    input.set_key(7, true);
    input.set_key(9, false);
    assert!(input.is_key_down(7));
    assert!(!input.is_key_pressed(7));
    assert!(!input.is_key_down(9));
}

#[test]
fn input_mouse_buttons_are_tracked_like_keys() {
    let mut input = Input::new();
    input.set_mouse_button(1, true);
    assert!(input.is_mouse_down(1));
    assert!(input.is_mouse_pressed(1));
    assert!(!input.is_key_down(1));
    input.update();
    assert!(input.is_mouse_down(1));
    assert!(!input.is_mouse_pressed(1));
    input.set_mouse_button(1, false);
    assert!(!input.is_mouse_down(1));
}

#[test]
fn input_any_of_the_bound_sources_counts() {
    let mut input = Input::new();
    let jump = [InputSource::Key(44), InputSource::Mouse(3)];
    assert!(!input.any_down(&jump));
    assert!(!input.any_pressed(&jump));
    assert!(!input.any_down(&[]));
    input.set_mouse_button(3, true);
    assert!(input.any_down(&jump));
    assert!(input.any_pressed(&jump));
    input.update();
    assert!(input.any_down(&jump));
    assert!(!input.any_pressed(&jump));
    input.set_key(44, true);
    assert!(input.any_pressed(&jump));
    input.set_key(3, true);
    assert!(!input.any_pressed(&[InputSource::Mouse(44)]));
}
