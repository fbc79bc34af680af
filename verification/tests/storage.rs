use tempest::error::Error;
use tempest::metainfo::{Info, Layout, MetaInfo, TorrentFile};
use tempest::storage::{FileSlice, Plan, Storage};

fn multi_meta() -> MetaInfo {
    MetaInfo {
        announce: "http://example.com/announce".into(),
        announce_list: vec![],
        info: Info {
            name: "testset".into(),
            piece_length: 16,
            piece_hashes: vec![[0u8; 20]; 2],
            layout: Layout::Multi {
                files: vec![
                    TorrentFile {
                        length: 10,
                        path: vec!["a.txt".into()],
                    },
                    TorrentFile {
                        length: 14,
                        path: vec!["b.txt".into()],
                    },
                    TorrentFile {
                        length: 8,
                        path: vec!["c.txt".into()],
                    },
                ],
            },
        },
        info_hash: [0u8; 20],
        total_length: 32,
        num_pieces: 2,
    }
}

/// Files that are held in memory.
struct Files {
    contents: Vec<Vec<u8>>,
}

impl Files {
    fn new(storage: &Storage) -> Self {
        Files {
            contents: storage.files.iter().map(|f| vec![0u8; f.length as usize]).collect(),
        }
    }

    fn write(&mut self, plan: Plan, data: &[u8]) -> Result<(), Error> {
        for s in &plan.slices {
            let (at, len) = (s.at as usize, s.length as usize);
            let off = s.offset as usize;
            self.contents[s.file][off..off + len].copy_from_slice(&data[at..at + len]);
        }
        plan.outcome
    }

    fn read(&self, plan: Plan, length: usize) -> Result<Vec<u8>, Error> {
        let mut out = vec![0u8; length];
        for s in &plan.slices {
            let (at, len) = (s.at as usize, s.length as usize);
            let off = s.offset as usize;
            out[at..at + len].copy_from_slice(&self.contents[s.file][off..off + len]);
        }
        plan.outcome.map(|_| out)
    }
}

#[test]
fn write_piece_splits_across_files() {
    let meta = multi_meta();
    let storage = Storage::new(&meta);
    let mut files = Files::new(&storage);

    let piece0: Vec<u8> = (0u8..16).collect();
    files.write(storage.write_piece(0, &piece0), &piece0).unwrap();
    let piece1: Vec<u8> = (16u8..32).collect();
    files.write(storage.write_piece(1, &piece1), &piece1).unwrap();

    assert_eq!(storage.root(), "testset");
    assert_eq!(storage.files[0].path, vec!["a.txt".to_owned()]);
    assert_eq!(storage.files[1].path, vec!["b.txt".to_owned()]);
    assert_eq!(storage.files[2].path, vec!["c.txt".to_owned()]);
    let a = files.contents[0].clone();
    let b = files.contents[1].clone();
    let c = files.contents[2].clone();
    assert_eq!(a, (0u8..10).collect::<Vec<_>>());
    assert_eq!(b, (10u8..24).collect::<Vec<_>>());
    assert_eq!(c, (24u8..32).collect::<Vec<_>>());

    let block = files.read(storage.read_block(0, 8, 8), 8).unwrap();
    assert_eq!(block, (8u8..16).collect::<Vec<_>>());
}

#[test]
fn slices_tell_file_and_place() {
    let storage = Storage::new(&multi_meta());
    let plan = storage.map_range(8, 26);
    assert!(plan.outcome.is_ok());
    assert_eq!(
        plan.slices,
        vec![
            FileSlice { file: 0, offset: 8, at: 0, length: 2 },
            FileSlice { file: 1, offset: 0, at: 2, length: 14 },
            FileSlice { file: 2, offset: 0, at: 16, length: 2 },
        ]
    );
    let nothing = storage.map_range(5, 5);
    assert!(nothing.slices.is_empty() && nothing.outcome.is_ok());
}

#[test]
fn every_byte_is_in_one_file() {
    let storage = Storage::new(&multi_meta());
    let ends = [(0, 9), (1, 13), (2, 7)];
    let mut abs = 0;
    for (file, last) in ends {
        for offset in 0..=last {
            assert_eq!(storage.span_at(abs).unwrap(), (file, offset));
            abs += 1;
        }
    }
    match storage.span_at(32) {
        Err(Error::Other(text)) => assert_eq!(text, "byte offset 32 outside torrent"),
        _ => panic!("found"),
    }
}

#[test]
fn a_range_beyond_the_torrent_fails_at_its_end() {
    let storage = Storage::new(&multi_meta());
    let plan = storage.read_block(1, 10, 20);
    assert_eq!(plan.slices, vec![FileSlice { file: 2, offset: 2, at: 0, length: 6 }]);
    match plan.outcome {
        Err(Error::Other(text)) => assert_eq!(text, "byte offset 32 outside torrent"),
        _ => panic!("mapped"),
    }
}

#[test]
fn one_file_is_the_root_itself() {
    let mut meta = multi_meta();
    meta.info.layout = Layout::Single { length: 32 };
    let storage = Storage::new(&meta);
    assert_eq!(storage.files.len(), 1);
    assert!(storage.files[0].path.is_empty());
    let plan = storage.write_piece(1, &[1u8; 16]);
    assert_eq!(plan.slices, vec![FileSlice { file: 0, offset: 16, at: 0, length: 16 }]);
}

#[test]
fn empty_files_hold_nothing() {
    let mut meta = multi_meta();
    meta.info.layout = Layout::Multi {
        files: vec![
            TorrentFile { length: 4, path: vec!["a".into()] },
            TorrentFile { length: 0, path: vec!["b".into()] },
            TorrentFile { length: 4, path: vec!["c".into()] },
        ],
    };
    let storage = Storage::new(&meta);
    assert_eq!(storage.files[1].offset, 4);
    assert_eq!(
        storage.map_range(2, 6).slices,
        vec![
            FileSlice { file: 0, offset: 2, at: 0, length: 2 },
            FileSlice { file: 2, offset: 0, at: 2, length: 2 },
        ]
    );
}

#[test]
fn writing_leaves_other_bytes_alone() {
    let storage = Storage::new(&multi_meta());
    let mut files = Files::new(&storage);
    let piece0 = vec![1u8; 16];
    let piece1 = vec![2u8; 16];
    files.write(storage.write_piece(0, &piece0), &piece0).unwrap();
    files.write(storage.write_piece(1, &piece1), &piece1).unwrap();
    assert_eq!(files.read(storage.read_block(0, 0, 16), 16).unwrap(), piece0);
    assert_eq!(files.read(storage.read_block(1, 3, 5), 5).unwrap(), vec![2u8; 5]);
}
