use std::collections::HashMap;

use mojokv::add;
use mojokv::bmap::BucketMap;
use mojokv::bucket::{Bucket, PutPlan};
use mojokv::diff::{diff_indexes, SlotChange};
use mojokv::error::Error;
use mojokv::index::MemIndex;
use mojokv::keymap::KeyMap;
use mojokv::page::{frame_record, NixFile, PageHeader, PAGE_HEADER_LEN};
use mojokv::shim::{filesize, split_range, zero_tail};
use mojokv::state::State;
use mojokv::store::{BucketOpenMode, OpenPlan, Store, WritablePlan};
use mojokv::value::Value;

/// Data files kept in memory, by version: enough to drive the bucket's plans.
struct Disk {
    files: HashMap<u32, Vec<u8>>,
}

impl Disk {
    fn new() -> Disk {
        Disk { files: HashMap::new() }
    }

    fn len(&self, ver: u32) -> u64 {
        self.files.get(&ver).map(|f| f.len() as u64).unwrap_or(0)
    }

    fn write_at(&mut self, ver: u32, off: u64, bytes: &[u8]) {
        let f = self.files.entry(ver).or_default();
        let end = off as usize + bytes.len();
        if f.len() < end {
            f.resize(end, 0);
        }
        f[off as usize..end].copy_from_slice(bytes);
    }

    fn read_at(&self, ver: u32, off: u64, n: usize) -> Vec<u8> {
        let f = &self.files[&ver];
        f[off as usize..off as usize + n].to_vec()
    }
}

fn put(b: &mut Bucket, disk: &mut Disk, key: u32, page_off: u64, buf: &[u8], store_ver: u32) -> Result<(), Error> {
    match b.put_plan(key, page_off, buf.len(), store_ver)? {
        PutPlan::Overwrite { ver, byte_off } => {
            disk.write_at(ver, byte_off, buf);
            b.record_overwrite(key);
        }
        PutPlan::Append { base } => {
            let base_page = base.map(|(ver, off)| disk.read_at(ver, off, b.page_size as usize));
            let (off, rec) = b.prepare_append(page_off as usize, buf, base_page.as_ref());
            disk.write_at(b.active_ver, off, &rec);
            b.record_append(key);
        }
    }
    Ok(())
}

fn get(b: &Bucket, disk: &Disk, key: u32, n: usize) -> Result<Vec<u8>, Error> {
    let (ver, off) = b.get(key, 0)?;
    Ok(disk.read_at(ver, off, n))
}

fn state_with(page_sz: u32, pps: u32) -> State {
    State::new(page_sz, pps)
}

#[test]
fn it_works() {
    let result = add(2, 2);
    assert_eq!(result, 4);
}

#[test]
fn value_packs_into_seven_bytes() {
    let v = Value { off: 0x0403_0201, ver: 0x07_0605 };
    let mut out = Vec::new();
    v.encode_into(&mut out);
    assert_eq!(out, vec![1, 2, 3, 4, 5, 6, 7]);
    assert_eq!(Value::decode_at(&out, 0), v);
    let mut w = v;
    w.deallocate();
    assert!(!w.is_allocated());
    assert!(v.is_allocated());
}

#[test]
fn keymap_put_get_truncate() {
    let mut km = KeyMap::new(4);
    assert_eq!(km.get(3), None);
    km.put(5, Value { off: 9, ver: 1 });
    assert_eq!(km.slot_map.len(), 2);
    assert_eq!(km.get(5), Some(Value { off: 9, ver: 1 }));
    assert_eq!(km.get(4), Some(Value { off: 0, ver: 0 }));
    assert_eq!(km.get(0), None);
    km.put(6, Value { off: 10, ver: 1 });
    km.truncate(6);
    assert_eq!(km.get(5), Some(Value { off: 9, ver: 1 }));
    assert_eq!(km.get(6), Some(Value { off: 0, ver: 0 }));
    km.truncate(12);
    assert_eq!(km.slot_map.len(), 4);
}

#[test]
fn keymap_min_max_versions() {
    let mut km = KeyMap::new(4);
    let (mn, mx, set) = km.get_min_max_ver();
    assert_eq!((mn, mx, set.len()), (u32::MAX, 0, 0));
    km.put(1, Value { off: 0, ver: 3 });
    km.put(9, Value { off: 0, ver: 2 });
    km.put(10, Value { off: 1, ver: 3 });
    let (mn, mx, mut set) = km.get_min_max_ver();
    set.sort();
    assert_eq!((mn, mx, set), (2, 3, vec![2, 3]));
}

#[test]
fn sparse_hole_two_slots() {
    let st = state_with(8, 65536);
    let mut disk = Disk::new();
    let mut b = Bucket::new("a", &st, 0);
    b.set_writable();
    put(&mut b, &mut disk, 0, 0, &[1; 8], 1).unwrap();
    put(&mut b, &mut disk, 1_000_000, 0, &[2; 8], 1).unwrap();
    assert_eq!(b.max_key(), 1_000_000);
    let present: Vec<usize> = (0..b.index.kmap.slot_map.len()).filter(|i| b.index.kmap.slot_map[*i].is_some()).collect();
    assert_eq!(present, vec![0, 1_000_000 / 65536]);
    for k in [1u32, 500, 65536, 999_999] {
        assert!(matches!(b.get(k, 0), Err(Error::KeyNotFoundErr(kk)) if kk == k));
    }
    assert_eq!(filesize(&b), 8 * 1_000_001);
}

#[test]
fn read_your_writes_within_version() {
    let st = state_with(8, 65536);
    let mut disk = Disk::new();
    let mut b = Bucket::new("a", &st, 0);
    b.set_writable();
    for i in 0u64..10 {
        put(&mut b, &mut disk, i as u32, 0, &i.to_be_bytes(), 1).unwrap();
    }
    for i in 0u64..10 {
        assert_eq!(get(&b, &disk, i as u32, 8).unwrap(), i.to_be_bytes().to_vec());
    }
    assert_eq!(b.logical_size(), 80);
    assert!(matches!(b.get(10, 0), Err(Error::KeyNotFoundErr(10))));
}

#[test]
fn second_write_same_version_is_in_place() {
    let st = state_with(8, 65536);
    let mut disk = Disk::new();
    let mut b = Bucket::new("a", &st, 0);
    b.set_writable();
    put(&mut b, &mut disk, 3, 0, &[1; 8], 1).unwrap();
    let len_after_first = disk.len(1);
    assert!(matches!(b.put_plan(3, 0, 8, 1), Ok(PutPlan::Overwrite { ver: 1, .. })));
    put(&mut b, &mut disk, 3, 0, &[2; 8], 1).unwrap();
    assert_eq!(disk.len(1), len_after_first);
    assert_eq!(len_after_first, 16);
    assert_eq!(get(&b, &disk, 3, 8).unwrap(), vec![2; 8]);
}

#[test]
fn partial_write_over_older_version_copies_page() {
    let mut st = state_with(8, 65536);
    let mut disk = Disk::new();
    let mut b = Bucket::new("a", &st, 0);
    b.set_writable();
    put(&mut b, &mut disk, 0, 0, &[1, 2, 3, 4, 5, 6, 7, 8], 1).unwrap();
    let idx = clone_index(&b.index);
    st.advance_ver();
    let mut b2 = Bucket::load("a", &st, 1, idx, 0).unwrap();
    b2.set_writable();
    assert!(matches!(b2.put_plan(0, 2, 2, 2), Ok(PutPlan::Append { base: Some((1, 8)) })));
    put(&mut b2, &mut disk, 0, 2, &[9, 9], 2).unwrap();
    assert_eq!(get(&b2, &disk, 0, 8).unwrap(), vec![1, 2, 9, 9, 5, 6, 7, 8]);
    assert_eq!(get(&b, &disk, 0, 8).unwrap(), vec![1, 2, 3, 4, 5, 6, 7, 8]);
}

fn clone_index(i: &MemIndex) -> MemIndex {
    let bytes = mojokv::codec::encode_index(i);
    mojokv::codec::decode_index(&bytes).unwrap()
}

#[test]
fn commit_then_snapshot_reads() {
    let mut store = Store::new("root", 8, 65536);
    let mut disk = Disk::new();
    let mut indexes: HashMap<u32, Vec<u8>> = HashMap::new();
    let mut bmaps: HashMap<u32, Vec<(String, u32)>> = HashMap::new();

    assert_eq!(store.open("a", BucketOpenMode::Write), Ok(OpenPlan::Create));
    let mut b = Bucket::new("a", &store.state, disk.len(1));
    b.set_writable();
    for i in 0u64..10 {
        put(&mut b, &mut disk, i as u32, 0, &i.to_be_bytes(), store.active_ver()).unwrap();
    }
    assert_eq!(b.logical_size(), 80);
    b.sync().unwrap();
    indexes.insert(store.active_ver(), b.index.serialize().unwrap());
    store.register("a");
    bmaps.insert(store.active_ver(), store.bmap.map().unwrap());
    assert_eq!(store.commit(true), Ok(2));
    bmaps.insert(store.active_ver(), store.bmap.map().unwrap());

    let v = match store.open("a", BucketOpenMode::Write) {
        Ok(OpenPlan::Load(v)) => v,
        other => panic!("unexpected {:?}", other),
    };
    assert_eq!(v, 1);
    let (_, _, idx) = MemIndex::deserialize(&indexes[&v]).unwrap();
    let mut b = Bucket::load("a", &store.state, v, idx, disk.len(2)).unwrap();
    b.set_writable();
    for i in 0u64..10 {
        put(&mut b, &mut disk, i as u32, 0, &(i + 10).to_be_bytes(), store.active_ver()).unwrap();
    }
    b.sync().unwrap();
    indexes.insert(store.active_ver(), b.index.serialize().unwrap());
    store.register("a");
    bmaps.insert(store.active_ver(), store.bmap.map().unwrap());
    assert_eq!(store.commit(true), Ok(3));

    for (ver, base) in [(1u32, 0u64), (2, 10)] {
        Store::check_readonly(&store.state, ver).unwrap();
        let bmap = BucketMap::from_entries(bmaps[&ver].clone()).unwrap();
        let ro = Store::load_store("root", State::from_inner(store.state.inner).unwrap(), bmap, false).unwrap();
        let at = match ro.open("a", BucketOpenMode::Read) {
            Ok(OpenPlan::Load(at)) => at,
            other => panic!("unexpected {:?}", other),
        };
        let (_, _, idx) = MemIndex::deserialize(&indexes[&at]).unwrap();
        let rb = Bucket::readonly("a", &ro.state, at, idx, 0).unwrap();
        for i in 0u64..10 {
            assert_eq!(get(&rb, &disk, i as u32, 8).unwrap(), (i + base).to_be_bytes().to_vec());
        }
    }
}

#[test]
fn stale_handle_cannot_write() {
    let mut store = Store::new("root", 8, 65536);
    let mut disk = Disk::new();
    let mut b = Bucket::new("a", &store.state, 0);
    b.set_writable();
    put(&mut b, &mut disk, 0, 0, &[1; 8], store.active_ver()).unwrap();
    assert_eq!(store.commit(true), Ok(2));
    assert_eq!(
        put(&mut b, &mut disk, 0, 0, &[2; 8], store.active_ver()),
        Err(Error::VerNotWritable(1, 2))
    );
}

#[test]
fn commit_without_lock_fails() {
    let mut store = Store::new("root", 8, 65536);
    assert_eq!(store.commit(false), Err(Error::CommitLockedErr));
    assert_eq!(store.active_ver(), 1);
    assert_eq!(store.commit(true), Ok(2));
}

#[test]
fn delete_bucket_then_open_reports_missing() {
    let mut store = Store::new("root", 8, 65536);
    store.register("a");
    assert!(store.contains("a"));
    assert_eq!(store.delete("a"), Ok(1));
    assert!(!store.contains("a"));
    assert!(matches!(store.open("a", BucketOpenMode::Read), Err(Error::BucketNotAtVerErr(n, 1)) if n == "a"));
    assert!(matches!(store.delete("a"), Err(Error::BucketNotAtVerErr(_, 1))));
}

#[test]
fn readonly_store_refuses_write_open() {
    let st = State::new(8, 16);
    let ro = Store::load_store("root", st, BucketMap::new(), false).unwrap();
    assert_eq!(ro.open("a", BucketOpenMode::Write), Err(Error::StoreNotWritableErr));
    assert!(BucketOpenMode::Write.is_write());
    assert!(!BucketOpenMode::Read.is_write());
}

#[test]
fn writable_plan_cases() {
    assert_eq!(Store::writable_plan(true, false, None, Some(4)), Err(Error::MissingArgsErr));
    assert_eq!(Store::writable_plan(false, false, None, None), Err(Error::StoreNotFoundErr));
    assert_eq!(Store::writable_plan(false, true, None, None), Ok(WritablePlan::Load));
    assert_eq!(
        Store::writable_plan(true, false, Some(4096), Some(16)),
        Ok(WritablePlan::Init { page_sz: 4096, pps: 16 })
    );
}

#[test]
fn truncate_sets_size_and_drops_keys() {
    let st = state_with(8, 4);
    let mut disk = Disk::new();
    let mut b = Bucket::new("a", &st, 0);
    b.set_writable();
    for k in 0u32..10 {
        put(&mut b, &mut disk, k, 0, &[k as u8; 8], 1).unwrap();
    }
    b.truncate(40).unwrap();
    assert_eq!(b.logical_size(), 40);
    assert!(b.is_modified());
    for k in 5u32..10 {
        assert!(matches!(b.get(k, 0), Err(Error::KeyNotFoundErr(_))));
    }
    assert_eq!(get(&b, &disk, 4, 8).unwrap(), vec![4; 8]);
}

#[test]
fn sync_recomputes_versions() {
    let mut st = state_with(8, 4);
    let mut disk = Disk::new();
    let mut b = Bucket::new("a", &st, 0);
    b.set_writable();
    put(&mut b, &mut disk, 0, 0, &[1; 8], 1).unwrap();
    assert_eq!(b.sync(), Ok(vec![]));
    assert_eq!(b.index.header.vset, vec![1]);
    let idx = clone_index(&b.index);
    st.advance_ver();
    let mut b2 = Bucket::load("a", &st, 1, idx, 0).unwrap();
    b2.set_writable();
    put(&mut b2, &mut disk, 0, 0, &[2; 8], 2).unwrap();
    assert_eq!(b2.sync(), Ok(vec![1]));
    assert_eq!(b2.index.header.vset, vec![2]);
    assert_eq!((b2.index.header.min_ver, b2.index.header.max_ver), (2, 2));
    let mut ro = Bucket::new("b", &st, 0);
    assert_eq!(ro.sync(), Err(Error::StoreNotWritableErr));
    ro.set_writable();
    ro.sync().unwrap();
    assert_eq!((ro.index.header.min_ver, ro.index.header.max_ver), (2, 2));
}

#[test]
fn load_checks_version_range() {
    let st = State::new(8, 4);
    let idx = MemIndex::new(4);
    assert!(matches!(Bucket::load("a", &st, 2, idx, 0), Err(Error::VersionNotFoundErr(2))));
    let idx = MemIndex::new(8);
    assert!(matches!(Bucket::load("a", &st, 1, idx, 0), Err(Error::DecodeErr)));
}

#[test]
fn unwritable_bucket_refuses_put() {
    let st = State::new(8, 4);
    let b = Bucket::new("a", &st, 0);
    assert!(matches!(b.put_plan(0, 0, 8, 1), Err(Error::BucketNotWritableErr)));
}

#[test]
fn index_iter_skips_holes() {
    let mut idx = MemIndex::new(4);
    idx.put(1, 7).unwrap();
    idx.put(6, 8).unwrap();
    idx.put(20, 9).unwrap();
    let keys: Vec<u32> = idx.iter(0, 0).iter().map(|(k, _)| *k).collect();
    assert_eq!(keys, vec![1, 6, 20]);
    let keys: Vec<u32> = idx.iter(2, 20).iter().map(|(k, _)| *k).collect();
    assert_eq!(keys, vec![6]);
    assert_eq!(idx.iter(6, 7)[0].1, Value { off: 8, ver: 1 });
    assert_eq!(idx.max_key(), 20);
    idx.truncate(6).unwrap();
    assert_eq!(idx.max_key(), 5);
    assert_eq!(idx.iter(0, 0).len(), 1);
}

#[test]
fn index_round_trip() {
    let mut idx = MemIndex::new(4);
    idx.put(1, 7).unwrap();
    idx.put(13, 2).unwrap();
    idx.set_active_ver(3);
    idx.put(2, 5).unwrap();
    idx.update_min_max_ver();
    let bytes = mojokv::codec::encode_index(&idx);
    let back = mojokv::codec::decode_index(&bytes).unwrap();
    assert_eq!(back.header.active_ver, 3);
    assert_eq!(back.header.max_key, 13);
    assert_eq!(back.header.vset, idx.header.vset);
    assert_eq!((back.header.min_ver, back.header.max_ver), (1, 3));
    assert_eq!(back.kmap.slot_map, idx.kmap.slot_map);
    assert_eq!(mojokv::codec::encode_index(&back), bytes);
}

#[test]
fn index_file_round_trip_through_compression() {
    let mut idx = MemIndex::new(65536);
    for k in 0u32..100 {
        idx.put(k * 3, k).unwrap();
    }
    let file = idx.serialize().unwrap();
    let enc_len = mojokv::codec::encode_index(&idx).len();
    assert_eq!(&file[..8], &(enc_len as u64).to_le_bytes());
    assert!(file.len() < enc_len);
    let (cap, total, back) = MemIndex::deserialize(&file).unwrap();
    assert_eq!(cap, enc_len);
    assert_eq!(total, file.len());
    assert_eq!(back.kmap.slot_map, idx.kmap.slot_map);
    assert_eq!(back.header.max_key, 297);
}

#[test]
fn index_decode_rejects_garbage() {
    assert!(matches!(mojokv::codec::decode_index(&vec![0u8; 10]), Err(Error::DecodeErr)));
    let idx = MemIndex::new(4);
    let mut bytes = mojokv::codec::encode_index(&idx);
    bytes.push(0);
    assert!(matches!(mojokv::codec::decode_index(&bytes), Err(Error::DecodeErr)));
    assert!(matches!(MemIndex::deserialize(&vec![1, 2, 3]), Err(Error::DecodeErr)));
    let mut file = idx.serialize().unwrap();
    file.truncate(10);
    assert!(MemIndex::deserialize(&file).is_err());
}

#[test]
fn page_header_and_record() {
    let h = PageHeader { block_no: 0x0102_0304 };
    assert_eq!(h.encode(), vec![b'm', b'o', b'j', b'o', 4, 3, 2, 1]);
    assert_eq!(NixFile::header_len(), PAGE_HEADER_LEN);
    let base = vec![1u8, 2, 3, 4];
    let rec = frame_record(2, Some(&base), 4, 1, &[9, 9]);
    assert_eq!(rec, vec![b'm', b'o', b'j', b'o', 2, 0, 0, 0, 1, 9, 9, 4]);
    let rec = frame_record(0, None, 4, 3, &[7]);
    assert_eq!(&rec[8..], &[0, 0, 0, 7]);
}

#[test]
fn page_file_append_positions() {
    assert!(NixFile::can_open(24, 12));
    assert!(!NixFile::can_open(30, 12));
    let mut f = NixFile::open(24, 12);
    assert_eq!(f.curr_off, 24);
    assert_eq!(f.next_block(), 2);
    assert_eq!(f.write_buf(), 24);
    assert_eq!(f.curr_off, 36);
}

#[test]
fn oversized_recorded_length_is_refused() {
    let mut file = vec![0xffu8; 8];
    file.push(0);
    assert!(matches!(MemIndex::deserialize(&file), Err(Error::DecodeErr)));
}

#[test]
fn overwrite_keeps_max_key_and_locator() {
    let st = state_with(8, 4);
    let mut disk = Disk::new();
    let mut b = Bucket::new("a", &st, 0);
    b.set_writable();
    put(&mut b, &mut disk, 2, 0, &[1; 8], 1).unwrap();
    put(&mut b, &mut disk, 7, 0, &[2; 8], 1).unwrap();
    let before = b.get_key(2).unwrap();
    put(&mut b, &mut disk, 2, 4, &[9; 4], 1).unwrap();
    assert_eq!(b.get_key(2).unwrap(), before);
    assert_eq!(b.max_key(), 7);
    assert_eq!(get(&b, &disk, 2, 8).unwrap(), vec![1, 1, 1, 1, 9, 9, 9, 9]);
}

#[test]
fn bucket_map_entries() {
    let mut m = BucketMap::new();
    m.add("a", 1);
    m.add("b", 2);
    m.add("a", 3);
    assert_eq!(m.get("a"), Some(3));
    assert_eq!(m.get("c"), None);
    assert!(m.delete("b"));
    assert!(!m.delete("b"));
    assert_eq!(m.map().unwrap(), vec![("a".to_string(), 3)]);
    assert!(BucketMap::from_entries(vec![("x".to_string(), 1), ("x".to_string(), 2)]).is_err());
    let m = BucketMap::from_entries(vec![("x".to_string(), 1), ("y".to_string(), 2)]).unwrap();
    assert_eq!(m.get("y"), Some(2));
}

#[test]
fn fresh_store_state() {
    let s = Store::new("root", 4096, 16);
    let i = s.state.inner;
    assert_eq!((i.format_ver, i.min_ver, i.max_ver, i.active_ver), (1, 1, 1, 1));
    assert_eq!((i.page_sz, i.pps, i.file_header_len, i.file_page_sz), (4096, 16, 8, 4104));
    assert!(s.bmap.entries.is_empty());
}

#[test]
fn state_advance_and_validation() {
    let mut st = State::new(4096, 16);
    assert_eq!(st.file_page_sz(), 4104);
    assert_eq!(st.advance_ver(), 2);
    assert_eq!((st.active_ver(), st.max_ver(), st.min_ver()), (2, 2, 1));
    let mut inner = st.inner;
    inner.min_ver = 5;
    assert!(matches!(State::from_inner(inner), Err(Error::DecodeErr)));
}

#[test]
fn split_range_at_page_boundaries() {
    let s = split_range(6, 12, 8);
    let got: Vec<(u32, u32, usize, usize)> = s.iter().map(|p| (p.key, p.page_off, p.start, p.end)).collect();
    assert_eq!(got, vec![(0, 6, 0, 2), (1, 0, 2, 10), (2, 0, 10, 12)]);
    assert!(split_range(5, 0, 8).is_empty());
}

#[test]
fn zero_tail_fills_after_short_read() {
    let mut buf = vec![1u8, 2, 3, 4];
    zero_tail(&mut buf, 1);
    assert_eq!(buf, vec![1, 0, 0, 0]);
}

#[test]
fn diff_between_versions() {
    let mut a = MemIndex::new(4);
    a.put(1, 0).unwrap();
    a.put(5, 1).unwrap();
    let mut b = clone_index(&a);
    b.set_active_ver(2);
    b.put(5, 0).unwrap();
    b.put(9, 1).unwrap();
    let d = diff_indexes(&a, &b).unwrap();
    assert_eq!(
        d,
        vec![
            SlotChange::Modified { key: 5, from: Value { off: 1, ver: 1 }, to: Value { off: 0, ver: 2 } },
            SlotChange::Added { first_key: 8 },
        ]
    );
    assert_eq!(diff_indexes(&b, &a).unwrap(), vec![SlotChange::Modified { key: 5, from: Value { off: 0, ver: 2 }, to: Value { off: 1, ver: 1 } }]);
    a.truncate(4).unwrap();
    let c = MemIndex::new(8);
    assert_eq!(diff_indexes(&a, &c), Err(Error::DecodeErr));
}
