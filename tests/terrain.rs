use mk48_common::altitude::{lookup_altitude, reverse_lookup_altitude, Altitude, DATA_OFFSET};
use mk48_common::chunk::{Chunk, ChunkUpdate, HilbertTable, SerializedChunk, ZeroGenerator};
use mk48_common::chunk_set::ChunkSet;
use mk48_common::compress::{Compressor, Decompressor};
use mk48_common::coord::{ChunkId, Coord, Mod, RelativeCoord};
use mk48_common::terrain::Terrain;
use rand::{thread_rng, Rng};

const CHUNK_SIZE: usize = 64;

fn random_chunk() -> Chunk {
    let mut chunk = Chunk::zero();
    for y in 0..CHUNK_SIZE {
        for x in 0..CHUNK_SIZE {
            chunk.set(Coord(x, y), thread_rng().gen::<u8>() & 0b11110000);
        }
    }
    chunk
}

#[test]
fn altitude() {
    for i in 0..u8::MAX {
        assert_eq!(
            i.saturating_add(DATA_OFFSET) >> 4,
            (reverse_lookup_altitude(lookup_altitude(i)) + DATA_OFFSET) >> 4
        );
    }

    for i in i8::MIN..=i8::MAX {
        let a = Altitude(i);
        let r = reverse_lookup_altitude(a);
        let l = lookup_altitude(r);
        let bound = if (-10i8..10i8).contains(&i) { 20 } else { 50 };
        let difference = (l.0 as i16 - a.0 as i16).abs();
        assert!(difference < bound, "{:?} -> {} -> {:?}", a.0, r, l.0);
    }
}

#[test]
fn altitude_round_trip_all_raw_values() {
    for r in 0..=u8::MAX {
        assert_eq!(
            reverse_lookup_altitude(lookup_altitude(r)) >> 4,
            r.saturating_add(DATA_OFFSET) >> 4
        );
    }
}

#[test]
fn altitude_exact_values() {
    assert_eq!(lookup_altitude(0).0, -124);
    assert_eq!(lookup_altitude(255).0, 126);
    assert_eq!(reverse_lookup_altitude(Altitude(127)), 255);
    assert_eq!(reverse_lookup_altitude(Altitude(0)), 128);
    assert_eq!(reverse_lookup_altitude(Altitude(-128)), 0);
    assert_eq!(reverse_lookup_altitude(Altitude(-3)), 80);
}

#[test]
fn compress() {
    let table = HilbertTable::new().unwrap();
    let chunk = random_chunk();
    let bytes = chunk.to_bytes(&table);
    let chunk2 = Chunk::from_bytes(&bytes, &table);
    assert_eq!(chunk.raw_data(), chunk2.raw_data());
}

#[test]
fn rle_chunk_of_one_nibble() {
    let table = HilbertTable::new().unwrap();
    let mut chunk = Chunk::zero();
    for y in 0..CHUNK_SIZE {
        for x in 0..CHUNK_SIZE {
            chunk.set(Coord(x, y), 0x70);
        }
    }
    let bytes = chunk.to_bytes(&table);
    assert_eq!(bytes.len(), 256);
    assert!(bytes.iter().all(|&b| b == 0x7F));
    let chunk2 = Chunk::from_bytes(&bytes, &table);
    assert_eq!(chunk.raw_data(), chunk2.raw_data());
}

#[test]
fn hilbert_table_steps_to_neighbours() {
    let table = HilbertTable::new().unwrap();
    for i in 1..4096 {
        let a = table.coord(i - 1);
        let b = table.coord(i);
        let d = (a.0 as i32 - b.0 as i32).abs() + (a.1 as i32 - b.1 as i32).abs();
        assert_eq!(d, 1, "{} {:?} {:?}", i, a, b);
    }
}

#[test]
fn compressor_runs() {
    let mut c = Compressor::new(4);
    for _ in 0..17 {
        c.write_byte(0x31);
    }
    c.write_byte(0x50);
    assert_eq!(c.into_vec(), vec![0x3F, 0x30, 0x50]);

    let bytes = vec![0x21u8, 0x90];
    let mut d = Decompressor::new(&bytes);
    assert_eq!(d.next(), Some(0x20));
    assert_eq!(d.next(), Some(0x20));
    assert_eq!(d.next(), Some(0x90));
    assert_eq!(d.next(), None);
}

#[test]
fn updated_rects() {
    let mut chunk = Chunk::new(ChunkId(0, 0), &ZeroGenerator);
    let mut rng = thread_rng();

    for _ in 0..1000 {
        let mut coords: Vec<RelativeCoord> = (0..rng.gen_range(0..1000))
            .map(|_| {
                RelativeCoord(
                    rng.gen_range(0..CHUNK_SIZE as u8),
                    rng.gen_range(0..CHUNK_SIZE as u8),
                )
            })
            .collect();

        coords.sort_unstable_by_key(|c| (c.0, c.1));
        coords.dedup();
        chunk.set_update(ChunkUpdate::Coords(coords));

        let _ = chunk.updated_rects();
    }

    let coords = (0..CHUNK_SIZE as u8)
        .flat_map(|x| (0..CHUNK_SIZE as u8).map(move |y| RelativeCoord(x, y)))
        .collect();
    chunk.set_update(ChunkUpdate::Coords(coords));

    assert_eq!(
        chunk.updated_rects(),
        vec![(
            RelativeCoord(0, 0),
            RelativeCoord(CHUNK_SIZE as u8, CHUNK_SIZE as u8)
        )]
    );
}

#[test]
fn updated_rects_cover_exactly_the_touched_pixels() {
    let mut chunk = Chunk::zero();
    let coords = vec![RelativeCoord(3, 4), RelativeCoord(10, 10), RelativeCoord(11, 10), RelativeCoord(63, 63)];
    chunk.set_update(ChunkUpdate::Coords(coords.clone()));
    let rects = chunk.updated_rects();
    for a in 0..=64u8 {
        for b in 0..=64u8 {
            let touched = coords
                .iter()
                .any(|c| c.0 <= a && a <= c.0 + 1 && c.1 <= b && b <= c.1 + 1);
            let covered = rects
                .iter()
                .any(|(s, e)| s.0 <= a && a <= e.0 && s.1 <= b && b <= e.1);
            assert_eq!(touched, covered, "{} {}", a, b);
        }
    }
    assert_eq!(rects[0], (RelativeCoord(3, 4), RelativeCoord(4, 5)));
    for (i, p) in rects.iter().enumerate() {
        for q in &rects[i + 1..] {
            let overlap = p.0 .0 <= q.1 .0 && q.0 .0 <= p.1 .0 && p.0 .1 <= q.1 .1 && q.0 .1 <= p.1 .1;
            assert!(!overlap, "{:?} {:?}", p, q);
        }
    }
    chunk.set_update(ChunkUpdate::Coords(vec![]));
    assert!(chunk.updated_rects().is_empty());

    chunk.set_update(ChunkUpdate::Complete);
    assert_eq!(chunk.updated_rects(), vec![(RelativeCoord(0, 0), RelativeCoord(64, 64))]);
}

#[test]
fn mod_packing() {
    let m = Mod::new(RelativeCoord(5, 63), 0xA7);
    assert_eq!(m.data, 5 * 1024 + 63 * 16 + 0xA);
    assert_eq!(m.to_coord_and_value(), (RelativeCoord(5, 63), 0xA0));
    let b = m.to_bytes();
    assert_eq!(b, m.data.to_le_bytes());
    assert_eq!(Mod::from_bytes(b), m);
}

#[test]
fn chunk_ids_and_coords() {
    let id = ChunkId(3, 5);
    assert_eq!(id.as_index(), 3 + 5 * 16);
    assert_eq!(ChunkId::from_index(83), id);
    assert_eq!(id.as_coord(), Coord(192, 320));
    assert_eq!(ChunkId::from_coord(Coord(200, 383)), id);
    assert_eq!(RelativeCoord::from_coord(Coord(200, 383)), RelativeCoord(8, 63));
    assert_eq!(RelativeCoord(8, 63)._into_coord(id), Coord(200, 383));
    assert_eq!(RelativeCoord(8, 63).into_absolute_coord(), Coord(8, 63));
    assert_eq!(RelativeCoord(1, 2).add(RelativeCoord(1, 0)), RelativeCoord(2, 2));
    assert_eq!(Coord(1, 2).offset(RelativeCoord(1, 1)), Coord(2, 3));
}

#[test]
fn chunk_set_operations() {
    let mut a = ChunkSet::new();
    assert!(a.is_empty());
    a.add(ChunkId(1, 0));
    a.add(ChunkId(2, 3));
    assert!(!a.is_empty());
    assert!(a.contains(ChunkId(1, 0)));
    assert!(!a.contains(ChunkId(0, 1)));
    let mut b = ChunkSet::new();
    b.add(ChunkId(2, 3));
    b.add(ChunkId(15, 15));
    assert_eq!(a.and(&b).into_iter(), vec![ChunkId(2, 3)]);
    assert_eq!(a.or(&b).into_iter(), vec![ChunkId(1, 0), ChunkId(2, 3), ChunkId(15, 15)]);
    let n = a.not();
    assert!(!n.contains(ChunkId(1, 0)));
    assert!(n.contains(ChunkId(0, 0)));
    assert_eq!(n.into_iter().len(), 254);
}

#[test]
fn terrain_set_records_updates() {
    let mut terrain = Terrain::new();
    assert_eq!(terrain.at(Coord(100, 100)), 0);
    assert!(terrain.set(Coord(100, 100), 0x50));
    assert!(!terrain.set(Coord(100, 100), 0x5F));
    assert_eq!(terrain.at(Coord(100, 100)), 0x50);
    assert_eq!(terrain.at(Coord(101, 100)), 0);

    let chunk = terrain.mut_chunk(ChunkId(1, 1));
    let regen = chunk.regen_at_exec().unwrap();
    assert!((900_000..1_500_000).contains(&regen));
    assert_eq!(chunk.updated_rects(), vec![(RelativeCoord(36, 36), RelativeCoord(37, 37))]);

    terrain.pre_update();
    let table = HilbertTable::new().unwrap();
    let serialized = terrain.mut_chunk(ChunkId(1, 1)).to_serialized_chunk(true, &table);
    assert!(serialized.is_update);
    assert_eq!(serialized.bytes, Mod::new(RelativeCoord(36, 36), 0x50).to_bytes().to_vec());

    let mut client = Terrain::new();
    client.apply_update(&vec![(ChunkId(1, 1), serialized)], &table);
    assert_eq!(client.at(Coord(100, 100)), 0x50);

    terrain.post_update(0);
    terrain.clear_updated();
    let whole = terrain.mut_chunk(ChunkId(1, 1)).to_serialized_chunk(true, &table);
    assert!(!whole.is_update);
    let mut client2 = Terrain::new();
    client2.apply_update(&vec![(ChunkId(1, 1), whole)], &table);
    assert_eq!(client2.at(Coord(100, 100)), 0x50);
}

#[test]
fn terrain_regenerates_one_step() {
    let mut terrain = Terrain::new();
    terrain.set(Coord(0, 0), 0x30);
    terrain.pre_update();
    terrain.post_update(0);
    assert_eq!(terrain.at(Coord(0, 0)), 0x30);
    terrain.post_update(2_000_000);
    assert_eq!(terrain.at(Coord(0, 0)), 0x20);
}

#[test]
fn terrain_rect_outside_gives_default() {
    let terrain = Terrain::new();
    let v = terrain.iter_rect_or(Coord(0, 0), 3, 2, 9);
    assert_eq!(v, vec![9, 9, 9, 9, 0, 0]);
}

#[test]
fn terrain_mutate_raises_and_clamps() {
    let mut terrain = Terrain::new();
    let full = (Altitude(i8::MIN), Altitude(i8::MAX));
    assert!(terrain.mutate(Coord(10, 10), 50, full, full));
    assert!(terrain.at(Coord(10, 10)) > 0);
    assert!(!terrain.mutate(Coord(20, 20), 50, (Altitude(0), Altitude(i8::MAX)), full));
    assert_eq!(terrain.at(Coord(20, 20)), 0);
    terrain.mutate(Coord(30, 30), 100, full, (Altitude(-1), Altitude(1)));
    assert_eq!(lookup_altitude(terrain.at(Coord(30, 30))).0, -1);
}

#[test]
fn serialized_chunk_edits_apply_in_order() {
    let table = HilbertTable::new().unwrap();
    let mut chunk = Chunk::zero();
    let mut bytes = Mod::new(RelativeCoord(1, 2), 0x30).to_bytes().to_vec();
    bytes.extend_from_slice(&Mod::new(RelativeCoord(1, 2), 0x40).to_bytes());
    chunk.apply_serialized_chunk(&SerializedChunk { is_update: true, bytes }, &table);
    assert_eq!(chunk.at(Coord(1, 2)), 0x40);
}

#[test]
fn bilinear_mutate_at_pixel_corner_raises_terrain() {
    // A mutation of 50 at a pixel corner: the four bilinear weights (2, 1, 1, 0) times half
    // the amount all land on the same pixel.
    let mut terrain = Terrain::new();
    let full = (Altitude(i8::MIN), Altitude(i8::MAX));
    let center = Coord(512, 512);
    assert!(lookup_altitude(terrain.at(center)).0 < -120);
    for to_add in [50i8, 25, 25, 0] {
        terrain.mutate(center, to_add, full, full);
    }
    assert!(lookup_altitude(terrain.at(center)).0 > -120);
}
