use std::sync::Mutex;

use copc_converter::key::VoxelKey;
use copc_converter::node_store::{
    pack_for_thread, FileNodeStore, NodeLocation, PackAppend, PackedNodeStore,
};
use copc_converter::point::RawPoint;
use copc_converter::temp::TempReadError;
use copc_converter::TempCompression;
use rayon::prelude::{IntoParallelIterator, ParallelIterator};

fn sample_point(x: i32) -> RawPoint {
    RawPoint {
        x,
        y: x * 2,
        z: x * 3,
        intensity: 100,
        return_number: 1,
        number_of_returns: 1,
        classification: 0,
        scan_angle: 0,
        user_data: 0,
        point_source_id: 0,
        gps_time: (x as f64).to_bits(),
        red: 0,
        green: 0,
        blue: 0,
        nir: 0,
        extras: Vec::new(),
    }
}

/// A packed store together with its pack files, held in memory.
struct Packs {
    store: PackedNodeStore,
    files: Vec<Vec<u8>>,
}

impl Packs {
    fn new(codec: TempCompression, pack_count: usize) -> Packs {
        Packs {
            store: PackedNodeStore::new(0, codec, pack_count),
            files: vec![Vec::new(); pack_count],
        }
    }

    fn write(&mut self, key: &VoxelKey, points: &[RawPoint]) {
        let pack_id = self.store.current_pack_id();
        let PackAppend { pack_id, offset, bytes } =
            self.store.write(key, points, pack_id).unwrap();
        let file = &mut self.files[pack_id as usize];
        assert_eq!(file.len() as u64, offset);
        file.extend_from_slice(&bytes);
    }

    fn read(&self, key: &VoxelKey) -> Result<Vec<RawPoint>, TempReadError> {
        let bytes: &[u8] = match self.store.locate(key) {
            Some(NodeLocation { pack_id, offset, byte_len, .. }) => {
                let start = offset as usize;
                &self.files[pack_id as usize][start..start + byte_len as usize]
            }
            None => &[],
        };
        self.store.read(key, bytes)
    }
}

#[test]
fn packed_write_read_roundtrip() {
    let mut packs = Packs::new(TempCompression::Uncompressed, 2);
    let key = VoxelKey { level: 3, x: 1, y: 2, z: 3 };
    let pts = vec![sample_point(1), sample_point(2), sample_point(3)];
    packs.write(&key, &pts);

    let got = packs.read(&key).unwrap();
    assert_eq!(got.len(), pts.len());
    assert_eq!(got[0].x, 1);
    assert_eq!(got[2].z, 9);
    assert_eq!(packs.store.count(&key), 3);
}

#[test]
fn packed_overwrite_returns_latest() {
    let mut packs = Packs::new(TempCompression::Uncompressed, 1);
    let key = VoxelKey { level: 2, x: 0, y: 0, z: 0 };
    packs.write(&key, &[sample_point(10)]);
    packs.write(&key, &[sample_point(20), sample_point(21)]);

    let got = packs.read(&key).unwrap();
    assert_eq!(got.len(), 2);
    assert_eq!(got[0].x, 20);
    assert_eq!(got[1].x, 21);
    assert_eq!(packs.store.count(&key), 2);
}

#[test]
fn packed_missing_key_is_empty() {
    let packs = Packs::new(TempCompression::Uncompressed, 1);
    let key = VoxelKey { level: 1, x: 0, y: 0, z: 0 };
    assert!(packs.read(&key).unwrap().is_empty());
    assert_eq!(packs.store.count(&key), 0);
}

#[test]
fn packed_concurrent_writes() {
    let packs = Mutex::new(Packs::new(TempCompression::Uncompressed, 4));
    let pool = rayon::ThreadPoolBuilder::new().num_threads(4).build().unwrap();
    pool.install(|| {
        (0..200).into_par_iter().for_each(|i| {
            let key = VoxelKey { level: 4, x: i, y: 0, z: 0 };
            let pts: Vec<RawPoint> = (0..5).map(|j| sample_point(i * 10 + j)).collect();
            packs.lock().unwrap().write(&key, &pts);
        });
    });

    let packs = packs.into_inner().unwrap();
    for i in 0..200 {
        let key = VoxelKey { level: 4, x: i, y: 0, z: 0 };
        let got = packs.read(&key).unwrap();
        assert_eq!(got.len(), 5);
        assert_eq!(got[0].x, i * 10);
        assert_eq!(got[4].x, i * 10 + 4);
    }
}

#[test]
fn packed_compressed_nodes_do_not_disturb_each_other() {
    let mut packs = Packs::new(TempCompression::Lz4, 1);
    let a = VoxelKey { level: 1, x: 0, y: 0, z: 0 };
    let b = VoxelKey { level: 1, x: 1, y: 0, z: 0 };
    packs.write(&a, &[sample_point(1), sample_point(2)]);
    packs.write(&b, &[sample_point(3)]);
    packs.write(&a, &[sample_point(4)]);
    assert_eq!(packs.read(&a).unwrap()[0].x, 4);
    assert_eq!(packs.read(&b).unwrap()[0].x, 3);
    assert_eq!((packs.store.count(&a), packs.store.count(&b)), (1, 1));
}

#[test]
fn threads_share_the_packs_evenly() {
    assert_eq!(pack_for_thread(None, 4), 0);
    assert_eq!(pack_for_thread(Some(3), 4), 3);
    assert_eq!(pack_for_thread(Some(9), 4), 1);
    let pool = rayon::ThreadPoolBuilder::new().num_threads(3).build().unwrap();
    let ids: Vec<u16> = pool.broadcast(|_| PackedNodeStore::new(
        0,
        TempCompression::Uncompressed,
        8,
    ).current_pack_id());
    assert_eq!(ids, vec![0, 1, 2]);
    assert_eq!(PackedNodeStore::pack_name(7), "pack_7.bin");
}

#[test]
fn file_names_hold_the_key() {
    let store = FileNodeStore::new("/tmp/d".to_string(), 0, TempCompression::Lz4);
    let key = VoxelKey { level: 3, x: 12, y: 0, z: 7 };
    assert_eq!(store.node_path(&key), "/tmp/d/3_12_0_7");
    let store = FileNodeStore::new("/tmp/d/".to_string(), 0, TempCompression::Lz4);
    assert_eq!(store.node_path(&key), "/tmp/d/3_12_0_7");
    let near = VoxelKey { level: 31, x: 2, y: 0, z: 7 };
    assert_ne!(store.node_path(&near), store.node_path(&key));
}

#[test]
fn file_store_round_trip() {
    for codec in [TempCompression::Uncompressed, TempCompression::Lz4] {
        let store = FileNodeStore::new("d".to_string(), 0, codec);
        let file = store.write(&[sample_point(5), sample_point(6)]);
        assert_eq!(store.count(Some(&file)), Ok(2));
        let got = store.read(Some(&file)).unwrap();
        assert_eq!((got[0].x, got[1].x), (5, 6));
        assert_eq!(store.count(None), Ok(0));
        assert!(store.read(None).unwrap().is_empty());
    }
    let lz4 = FileNodeStore::new("d".to_string(), 0, TempCompression::Lz4);
    assert_eq!(lz4.read(Some(&[9; 20])).unwrap_err(), TempReadError::Corrupt);
}
