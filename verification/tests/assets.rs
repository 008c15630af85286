use pocketjs::assets::{stage, AssetError, AssetInput, AssetKind, Parsed};
use pocketjs::font::Atlas;
use pocketjs::style::{PropTable, StyleTable};
use pocketjs::ui::Ui;

const PSM_8888: u32 = 3;

#[test]
fn a_late_invalid_entry_preserves_resources_handles_and_revision() {
    let mut core = Ui::new(PropTable::new());
    let existing = core.upload_texture(&[11, 22, 33, 255], 1, 1, PSM_8888);
    let revision = core.raster_revision();
    let image = [1, 0, 1, 0, 3, 0, 0, 0, 44, 55, 66, 255];
    let inputs = [
        AssetInput {
            kind: AssetKind::Image,
            bytes: &image,
        },
        AssetInput {
            kind: AssetKind::Font,
            bytes: b"bad-font",
        },
    ];
    let mut handles = [123, 456];
    assert_eq!(
        core.load_assets(&inputs, vec![Parsed::Nothing, Parsed::Nothing], &mut handles),
        Err(AssetError::Invalid)
    );
    assert_eq!(handles, [123, 456]);
    assert_eq!(core.raster_revision(), revision);
    assert_eq!(core.texture(existing).unwrap().pixels, &[11, 22, 33, 255]);
    assert_eq!(core.textures.len(), 1);
    core.load_assets(&inputs[..1], vec![Parsed::Nothing], &mut handles[..1])
        .unwrap();
    assert_eq!(handles[0], existing + 1);
    assert_eq!(core.texture(handles[0]).unwrap().pixels, &image[8..]);
}

fn font(slot: u8) -> Atlas {
    Atlas {
        slot,
        glyph_count: 1,
        cell_w: 1,
        cell_h: 1,
        raster_density: 1,
        bitmap: vec![255],
        logical: vec![255],
    }
}

fn font_bytes(slot: u8) -> Vec<u8> {
    let mut b = vec![0; 13];
    b[12] = slot;
    b
}

fn sprite(w: u16, h: u16, frames: u16, cols: u16, step: u16) -> Vec<u8> {
    let mut b = Vec::new();
    for v in [w, h, PSM_8888 as u16, frames, cols, step, 0, 0] {
        b.extend_from_slice(&v.to_le_bytes());
    }
    b.extend(vec![7; w as usize * h as usize * 4]);
    b
}

fn load(core: &mut Ui, inputs: &[AssetInput], parsed: Vec<Parsed>) -> Result<Vec<i32>, AssetError> {
    let mut handles = vec![-9; inputs.len()];
    core.load_assets(inputs, parsed, &mut handles)?;
    Ok(handles)
}

#[test]
fn good_assets_are_all_installed() {
    let mut core = Ui::new(PropTable::new());
    let image = [1, 0, 1, 0, 3, 0, 0, 0, 44, 55, 66, 255];
    let bytes = font_bytes(2);
    let inputs = [
        AssetInput { kind: AssetKind::Styles, bytes: b"styles" },
        AssetInput { kind: AssetKind::Image, bytes: &image },
        AssetInput { kind: AssetKind::Font, bytes: &bytes },
        AssetInput { kind: AssetKind::Image, bytes: &image },
    ];
    let parsed = vec![Parsed::Styles(StyleTable::new()), Parsed::Nothing, Parsed::Font(font(2)), Parsed::Nothing];
    let before = core.raster_revision();
    let handles = load(&mut core, &inputs, parsed).unwrap();
    assert_eq!(handles, vec![-1, 0, -1, 1]);
    assert!(core.texture(0).is_some() && core.texture(1).is_some());
    assert_ne!(handles[1], handles[3]);
    assert!(core.font_atlas(2).is_some() && core.font_atlas(1).is_none());
    assert_ne!(core.raster_revision(), before);
    assert!(core.needs_layout());
}

#[test]
fn bad_assets_install_nothing() {
    let mut core = Ui::new(PropTable::new());
    let (two, three) = (font_bytes(2), font_bytes(3));
    let far = font_bytes(16);
    let style = || AssetInput { kind: AssetKind::Styles, bytes: b"" };
    let invalid = Err(AssetError::Invalid);
    // two style tables, two fonts for one slot, a slot that is not there
    let parsed = vec![Parsed::Styles(StyleTable::new()), Parsed::Styles(StyleTable::new())];
    assert_eq!(load(&mut core, &[style(), style()], parsed), invalid);
    let a = || AssetInput { kind: AssetKind::Font, bytes: &two };
    let b = || AssetInput { kind: AssetKind::Font, bytes: &three };
    let c = || AssetInput { kind: AssetKind::Font, bytes: &far };
    assert_eq!(load(&mut core, &[a(), a()], vec![Parsed::Font(font(2)), Parsed::Font(font(2))]), invalid);
    assert_eq!(load(&mut core, &[c()], vec![Parsed::Font(font(16))]), invalid);
    // what the parsers refused
    assert_eq!(load(&mut core, &[style()], vec![Parsed::Nothing]), invalid);
    assert_eq!(load(&mut core, &[a()], vec![Parsed::Nothing]), invalid);
    // an image that is cut short
    let short = AssetInput { kind: AssetKind::Image, bytes: &[1, 0, 1, 0, 3, 0, 0, 0, 1] };
    assert_eq!(load(&mut core, &[short], vec![Parsed::Nothing]), invalid);
    // as many handles as inputs
    let mut handles = [5, 6];
    assert_eq!(core.load_assets(&[a()], vec![Parsed::Font(font(2))], &mut handles), Err(AssetError::Invalid));
    assert_eq!(handles, [5, 6]);
    assert!(core.font_atlas(2).is_none() && core.textures.is_empty());
    let ok = load(&mut core, &[a(), b()], vec![Parsed::Font(font(2)), Parsed::Font(font(3))]);
    assert_eq!(ok, Ok(vec![-1, -1]));
    assert_eq!(load(&mut core, &[], vec![]), Ok(vec![]));
}

#[test]
fn sprites_need_a_grid_that_fits_their_sheet() {
    let mut core = Ui::new(PropTable::new());
    let mut try_one = |b: &[u8]| {
        let input = AssetInput { kind: AssetKind::Sprite, bytes: b };
        load(&mut core, &[input], vec![Parsed::Nothing])
    };
    assert_eq!(try_one(&sprite(4, 2, 3, 2, 1)), Ok(vec![0]));
    assert!(try_one(&sprite(4, 2, 0, 2, 1)).is_err());
    assert!(try_one(&sprite(4, 2, 3, 0, 1)).is_err());
    assert!(try_one(&sprite(4, 2, 3, 2, 0)).is_err());
    assert!(try_one(&sprite(4, 2, 3, 3, 1)).is_err());
    assert!(try_one(&sprite(4, 1, 3, 2, 1)).is_err());
    assert!(try_one(&sprite(4, 2, 3, 2, 1)[..20]).is_err());
}

#[test]
fn staged_assets_need_memory() {
    let mut core = Ui::new(PropTable::new());
    let image = [1, 0, 1, 0, 3, 0, 0, 0, 44, 55, 66, 255];
    let inputs = [AssetInput { kind: AssetKind::Image, bytes: &image }];
    let staged = stage(&inputs, vec![Parsed::Nothing]).unwrap();
    assert_eq!(core.install(staged, false), Err(AssetError::NoMemory));
    assert!(core.textures.is_empty());
    let staged = stage(&inputs, vec![Parsed::Nothing]).unwrap();
    assert_eq!(core.install(staged, true), Ok(vec![0]));
    assert!(stage(&inputs, vec![Parsed::Styles(StyleTable::new())]).is_some());
}

#[test]
fn assets_without_new_slots_are_always_installed() {
    let mut core = Ui::new(PropTable::new());
    let bytes = font_bytes(4);
    let parts = [
        AssetInput { kind: AssetKind::Styles, bytes: b"styles" },
        AssetInput { kind: AssetKind::Font, bytes: &bytes },
    ];
    let parsed = vec![Parsed::Styles(StyleTable::new()), Parsed::Font(font(4))];
    assert_eq!(load(&mut core, &parts, parsed), Ok(vec![-1, -1]));
    assert!(core.textures.is_empty());
    // a slot that was given up is used again
    let old = core.upload_texture(&[1, 2, 3, 4], 1, 1, PSM_8888);
    core.free_texture(old);
    let image = [1, 0, 1, 0, 3, 0, 0, 0, 44, 55, 66, 255];
    let one = [AssetInput { kind: AssetKind::Image, bytes: &image }];
    let handles = load(&mut core, &one, vec![Parsed::Nothing]).unwrap();
    assert_eq!(core.textures.len(), 1);
    assert_ne!(handles[0], old);
    assert!(core.texture(old).is_none());
    assert_eq!(core.texture(handles[0]).unwrap().pixels, &image[8..]);
}
