use pocketjs::arith::next_pow2;
use pocketjs::bytes::{rd_u16, rd_u32, window};
use pocketjs::disc::{disc_texture, DiscCache};
use pocketjs::packbits::packbits_decode;
use pocketjs::style::PropTable;
use pocketjs::texture::{make_tex_handle, parse_img_header, read_tile, tex_alloc, tex_resolve, TexSlot, Texture};
use pocketjs::ui::Ui;

const PSM_5650: u32 = 0;
const PSM_4444: u32 = 2;
const PSM_8888: u32 = 3;
const PSM_T8: u32 = 5;

fn ui() -> Ui {
    Ui::new(PropTable::new())
}

fn one(v: u8) -> Texture {
    Texture {
        data: vec![v; 4],
        w: 1,
        h: 1,
        psm: PSM_8888,
        palette: None,
        linear: false,
        revision: 0,
    }
}

#[test]
fn handles_hold_generation_and_slot() {
    assert_eq!(make_tex_handle(0, 0), 0);
    assert_eq!(make_tex_handle(1, 0), 1 << 20);
    assert_eq!(make_tex_handle(3, 7), (3 << 20) | 7);
    // generations wrap, and bit 31 stays clear
    assert_eq!(make_tex_handle(0x800, 5), 5);
    assert_eq!(make_tex_handle(0x7ff, 0xf_ffff), i32::MAX);
}

#[test]
fn first_upload_has_handle_zero() {
    let mut u = ui();
    assert_eq!(u.upload_texture(&[1, 2, 3, 4], 1, 1, PSM_8888), 0);
    assert_eq!(u.upload_texture(&[5, 6, 7, 8], 1, 1, PSM_8888), 1);
    assert_eq!(u.texture_slot_count(), 2);
    assert_eq!(u.texture(0).unwrap().pixels, &[1, 2, 3, 4]);
    assert_eq!(u.texture(1).unwrap().pixels, &[5, 6, 7, 8]);
    assert!(u.texture(2).is_none());
    assert!(u.texture(-1).is_none());
}

#[test]
fn freed_handles_go_stale_and_slots_come_back_last_in_first_out() {
    let mut u = ui();
    let a = u.upload_texture(&[1; 4], 1, 1, PSM_8888);
    let b = u.upload_texture(&[2; 4], 1, 1, PSM_8888);
    let c = u.upload_texture(&[3; 4], 1, 1, PSM_8888);
    let before = u.raster_revision();
    u.free_texture(a);
    u.free_texture(b);
    assert_eq!(u.raster_revision(), before + 2);
    assert!(u.texture(a).is_none());
    assert!(u.texture(b).is_none());
    assert_eq!(u.texture(c).unwrap().pixels, &[3; 4]);
    u.free_texture(a);
    assert_eq!(u.raster_revision(), before + 2);
    let d = u.upload_texture(&[4; 4], 1, 1, PSM_8888);
    assert_eq!(d, b + (1 << 20));
    let e = u.upload_texture(&[5; 4], 1, 1, PSM_8888);
    assert_eq!(e, a + (1 << 20));
    assert_eq!(u.texture_slot_count(), 3);
    assert!(u.texture(b).is_none());
    assert_eq!(u.texture_at(1).unwrap().0, d);
    assert!(u.texture_at(3).is_none());
}

#[test]
fn a_generation_comes_round_after_two_thousand_and_forty_eight_frees() {
    let mut slots: Vec<TexSlot> = vec![TexSlot { gen: 0x7ff, tex: None }];
    let mut free: Vec<u32> = vec![0];
    let h = tex_alloc(&mut slots, &mut free, one(1));
    assert_eq!(h, 0x7ff << 20);
    assert_eq!(tex_resolve(&slots, h), Some(0));
    assert_eq!(tex_resolve(&slots, 0), None);
    assert_eq!(tex_resolve(&slots, -5), None);
}

#[test]
fn uploads_check_format_edges_and_size() {
    let mut u = ui();
    let rev = u.raster_revision();
    assert_eq!(u.upload_texture(&[0; 64], 4, 4, 1), -1);
    assert_eq!(u.upload_texture(&[0; 64], 3, 4, PSM_8888), -1);
    assert_eq!(u.upload_texture(&[0; 64], 4, 0, PSM_8888), -1);
    assert_eq!(u.upload_texture(&[0; 63], 4, 4, PSM_8888), -1);
    assert_eq!(u.upload_texture(&vec![0; 1024 * 4], 1024, 1, PSM_8888), -1);
    assert_eq!(u.upload_texture(&[0; 1023], 1, 1, PSM_T8), -1);
    assert_eq!(u.upload_texture(&[0; 1024], 1, 1, PSM_T8), -1);
    assert_eq!(u.raster_revision(), rev);
    assert_eq!(u.upload_texture(&[0; 65], 4, 4, PSM_8888), 0);
    assert_eq!(u.texture(0).unwrap().pixels.len(), 64);
    assert_eq!(u.upload_texture(&[0; 32], 4, 4, PSM_5650), 1);
    assert_eq!(u.upload_texture(&[0; 32], 4, 4, PSM_4444), 2);
    assert_eq!(u.upload_texture(&[0; 1025], 1, 1, PSM_T8), 3);
    assert_eq!(u.texture(3).unwrap().palette.unwrap().len(), 1024);
    assert!(u.texture(0).unwrap().palette.is_none());
    assert_eq!(u.raster_revision(), rev + 4);
}

#[test]
fn packed_pixels_must_fill_the_texture_exactly() {
    let mut u = ui();
    // three literal bytes, then five times 9
    let stream = [2u8, 1, 2, 3, 0xfc, 9];
    assert_eq!(packbits_decode(&stream, 8), Some(vec![1, 2, 3, 9, 9, 9, 9, 9]));
    assert_eq!(packbits_decode(&stream, 7), None);
    assert_eq!(packbits_decode(&stream, 9), None);
    assert_eq!(packbits_decode(&[], 0), Some(vec![]));
    assert_eq!(u.upload_texture_flags(&stream, 2, 1, PSM_8888, 1), 0);
    assert_eq!(u.texture(0).unwrap().pixels, &[1, 2, 3, 9, 9, 9, 9, 9]);
    assert!(!u.texture(0).unwrap().linear);
    assert_eq!(u.upload_texture_flags(&stream, 4, 1, PSM_8888, 1), -1);
    assert_eq!(u.upload_texture_flags(&[7; 4], 1, 1, PSM_8888, 2), 1);
    assert!(u.texture(1).unwrap().linear);
}

#[test]
fn image_entries_carry_their_header() {
    let mut u = ui();
    let blob = [2u8, 0, 1, 0, 3, 2, 0, 0, 1, 2, 3, 4, 5, 6, 7, 8];
    assert_eq!(parse_img_header(&blob), Some((2, 1, 3, 2)));
    assert_eq!(parse_img_header(&blob[..7]), None);
    let h = u.upload_img_entry(&blob);
    let v = u.texture(h).unwrap();
    assert_eq!((v.w, v.h, v.psm, v.linear), (2, 1, 3, true));
    assert_eq!(v.pixels, &[1, 2, 3, 4, 5, 6, 7, 8]);
    assert_eq!(u.upload_img_entry(&blob[..15]), -1);
    assert_eq!(u.upload_img_entry(&[]), -1);
}

#[test]
fn palette_textures_are_overwritten_in_place() {
    let mut u = ui();
    let mut data = vec![0u8; 1024];
    data.extend_from_slice(&[1, 2, 3, 4]);
    let h = u.upload_texture(&data, 2, 2, PSM_T8);
    assert_eq!(u.texture_revision(h), Some(0));
    let rev = u.raster_revision();
    assert!(!u.update_texture_t8(h, &[0; 1023], &[0; 4]));
    assert!(!u.update_texture_t8(h, &[0; 1024], &[0; 5]));
    assert!(!u.update_texture_t8(h + 1, &[0; 1024], &[0; 4]));
    assert_eq!(u.raster_revision(), rev);
    assert!(u.update_texture_t8(h, &[9; 1024], &[5, 6, 7, 8]));
    assert_eq!(u.raster_revision(), rev + 1);
    assert_eq!(u.texture_revision(h), Some(1));
    assert_eq!(u.texture(h).unwrap().pixels, &[5, 6, 7, 8]);
    assert_eq!(u.texture(h).unwrap().palette.unwrap(), &[9u8; 1024][..]);
    let (at, revision, view) = u.texture_at_versioned(0).unwrap();
    assert_eq!((at, revision, view.w), (h, 1, 2));
    let plain = u.upload_texture(&[0; 4], 1, 1, PSM_8888);
    assert!(!u.update_texture_t8(plain, &[9; 1024], &[0; 4]));
    assert_eq!(u.texture_revision(99), None);
}

fn tileset(entries: &[(u32, u32)], flags: u16, data: &[u8]) -> Vec<u8> {
    let mut b: Vec<u8> = Vec::new();
    b.extend_from_slice(&0x5354_4b50u32.to_le_bytes());
    b.extend_from_slice(&1u16.to_le_bytes());
    b.extend_from_slice(&flags.to_le_bytes());
    b.extend_from_slice(&2u16.to_le_bytes());
    b.extend_from_slice(&1u16.to_le_bytes());
    b.extend_from_slice(&(entries.len() as u16).to_le_bytes());
    b.extend_from_slice(&1u16.to_le_bytes());
    let palette = 28u32;
    let dir = palette + 1024;
    let at = dir + 8 * entries.len() as u32;
    b.extend_from_slice(&palette.to_le_bytes());
    b.extend_from_slice(&dir.to_le_bytes());
    b.extend_from_slice(&at.to_le_bytes());
    b.extend_from_slice(&[7u8; 1024]);
    for (off, len) in entries {
        b.extend_from_slice(&off.to_le_bytes());
        b.extend_from_slice(&len.to_le_bytes());
    }
    b.extend_from_slice(data);
    b
}

#[test]
fn tiles_are_read_from_their_directory_entry() {
    let mut u = ui();
    let b = tileset(&[(0, 2), (2, 2), (0xffff_ffff, 2), (3, 0), (3, 99)], 2, &[11, 12, 13, 14]);
    let h = u.upload_tileset_tile(&b, 1);
    let v = u.texture(h).unwrap();
    assert_eq!((v.w, v.h, v.psm, v.linear), (2, 1, PSM_T8, true));
    assert_eq!(v.pixels, &[13, 14]);
    assert_eq!(v.palette.unwrap(), &[7u8; 1024][..]);
    for bad in [2u32, 3, 4, 5, u32::MAX] {
        assert_eq!(u.upload_tileset_tile(&b, bad), -1);
    }
    let mut wrong = b.clone();
    wrong[0] = 0;
    assert!(read_tile(&wrong, 0).is_none());
    let mut wrong = b.clone();
    wrong[4] = 9;
    assert!(read_tile(&wrong, 0).is_none());
    assert!(read_tile(&b[..20], 0).is_none());
    let packed = tileset(&[(0, 2)], 1, &[0xff, 42]);
    assert_eq!(read_tile(&packed, 0).unwrap().data, vec![42, 42]);
}

#[test]
fn little_endian_reads_stay_inside() {
    let b = [1u8, 2, 3, 4, 5];
    assert_eq!(rd_u16(&b, 0), Some(0x0201));
    assert_eq!(rd_u16(&b, 3), Some(0x0504));
    assert_eq!(rd_u16(&b, 4), None);
    assert_eq!(rd_u16(&b, usize::MAX), None);
    assert_eq!(rd_u32(&b, 1), Some(0x0504_0302));
    assert_eq!(rd_u32(&b, 2), None);
    assert_eq!(window(&b, 1, 3), Some(&b[1..4]));
    assert_eq!(window(&b, 3, 3), None);
    assert_eq!(window(&b, usize::MAX, 1), None);
}

#[test]
fn powers_of_two() {
    assert_eq!(next_pow2(0), 1);
    assert_eq!(next_pow2(1), 1);
    assert_eq!(next_pow2(3), 4);
    assert_eq!(next_pow2(512), 512);
    assert_eq!(next_pow2(513), 1024);
}

#[test]
fn discs_are_baked_once_per_radius() {
    let mut cache = DiscCache::new();
    let mut slots: Vec<TexSlot> = Vec::new();
    let mut free: Vec<u32> = Vec::new();
    let a = disc_texture(&mut cache, &mut slots, &mut free, 4, 1).unwrap();
    assert_eq!(a, (0, 8));
    assert_eq!(disc_texture(&mut cache, &mut slots, &mut free, 4, 1), Some(a));
    assert_eq!(slots.len(), 1);
    let b = disc_texture(&mut cache, &mut slots, &mut free, 5, 1).unwrap();
    assert_eq!(b, (1, 16));
    let t = slots[0].tex.as_ref().unwrap();
    assert_eq!((t.w, t.h, t.psm, t.linear), (8, 8, PSM_8888, true));
    assert_eq!(&t.data[..3], &[255, 255, 255]);
    // the disc is symmetric, covered in the middle and empty in the corner
    let alpha = |x: usize, y: usize| t.data[4 * (8 * y + x) + 3];
    assert_eq!(alpha(3, 3), 255);
    assert_eq!(alpha(0, 0), 0);
    for y in 0..8 {
        for x in 0..8 {
            assert_eq!(alpha(x, y), alpha(7 - x, y));
            assert_eq!(alpha(x, y), alpha(y, x));
        }
    }
    // a disc whose texture was released is baked again
    slots[0] = TexSlot { gen: 1, tex: None };
    free.push(0);
    let c = disc_texture(&mut cache, &mut slots, &mut free, 4, 1).unwrap();
    assert_eq!(c, (1 << 20, 8));
    assert_eq!(disc_texture(&mut cache, &mut slots, &mut free, 300, 1), None);
    assert_eq!(disc_texture(&mut cache, &mut slots, &mut free, 300, u32::MAX), None);
}
