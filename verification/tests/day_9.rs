use aoc_2024::day_9::{
    compress_filesystem, compress_filesystem_improved, Data, FileSystem, FileSystemImproved,
};
use aoc_2024::text::InputError;

const SAMPLE: &str = "2333133121414131402";

#[test]
fn sample_disk_has_checksum_1928() {
    assert_eq!(compress_filesystem(SAMPLE), Ok(1928));
}

#[test]
fn sample_disk_has_checksum_2858_when_files_move_whole() {
    assert_eq!(compress_filesystem_improved(SAMPLE), Ok(2858));
}

#[test]
fn sample_disk_is_read_block_by_block() {
    let disk = FileSystem::from_text(SAMPLE).unwrap();
    assert_eq!(disk.render(), "00...111...2...333.44.5555.6666.777.888899");
    let disk = FileSystem::from_text("12345").unwrap();
    assert_eq!(disk.render(), "0..111....22222");
}

#[test]
fn sample_disk_is_compacted_block_by_block() {
    let mut disk = FileSystem::from_text(SAMPLE).unwrap();
    disk.compress_data();
    assert_eq!(disk.render(), "0099811188827773336446555566..............");
    let mut disk = FileSystem::from_text("12345").unwrap();
    disk.compress_data();
    assert_eq!(disk.render(), "022111222......");
    assert_eq!(disk.calculate_checksum(), Some(60));
}

#[test]
fn sample_disk_is_compacted_file_by_file() {
    let mut disk = FileSystemImproved::from_text(SAMPLE).unwrap();
    assert_eq!(disk.render(), "00...111...2...333.44.5555.6666.777.888899");
    disk.compress_data();
    assert_eq!(disk.render(), "00992111777.44.333....5555.6666.....8888..");
    assert_eq!(disk.calculate_checksum(), Some(2858));
}

#[test]
fn a_text_that_is_not_all_digits_is_malformed() {
    for text in ["2333133121414131402\n", "12a45", " 12345", "1 2"] {
        assert_eq!(compress_filesystem(text), Err(InputError::Malformed));
        assert_eq!(compress_filesystem_improved(text), Err(InputError::Malformed));
    }
}

#[test]
fn a_disk_without_free_space_or_without_files_is_malformed() {
    for text in ["", "5", "001", "10203"] {
        assert_eq!(compress_filesystem(text), Err(InputError::Malformed));
    }
    for text in ["", "5"] {
        assert_eq!(compress_filesystem_improved(text), Err(InputError::Malformed));
    }
    assert_eq!(compress_filesystem_improved("10203"), Ok(27));
    assert_eq!(compress_filesystem("011"), Ok(0));
}

#[test]
fn a_disk_that_is_compact_stays_as_it_is() {
    let mut disk = FileSystem::new(vec![Some(3), Some(1), None, None]);
    disk.compress_data();
    assert_eq!(disk.data, vec![Some(3), Some(1), None, None]);
    let mut disk = FileSystem::new(vec![None, Some(7)]);
    disk.compress_data();
    assert_eq!(disk.data, vec![Some(7), None]);
    assert_eq!(disk.calculate_checksum(), Some(0));
    let mut disk = FileSystem::new(vec![None, Some(7), None, Some(8), Some(9), None]);
    disk.compress_data();
    assert_eq!(disk.data, vec![Some(9), Some(7), Some(8), None, None, None]);
    assert_eq!(disk.calculate_checksum(), Some(23));
}

#[test]
fn a_file_goes_into_the_first_span_with_room() {
    let mut disk = FileSystemImproved::new(vec![
        Data::File(0, 1),
        Data::Empty(1),
        Data::File(1, 1),
        Data::Empty(3),
        Data::File(2, 2),
        Data::Empty(2),
        Data::File(3, 2),
    ]);
    disk.compress_data();
    assert_eq!(
        disk.data,
        vec![
            Data::File(0, 1),
            Data::File(1, 1),
            Data::Empty(1),
            Data::File(3, 2),
            Data::Empty(1),
            Data::File(2, 2),
            Data::Empty(2),
            Data::Empty(2),
        ]
    );
}

#[test]
fn a_file_without_room_stays() {
    let mut disk =
        FileSystemImproved::new(vec![Data::File(0, 2), Data::Empty(1), Data::File(1, 2)]);
    disk.compress_data();
    assert_eq!(disk.data, vec![Data::File(0, 2), Data::Empty(1), Data::File(1, 2)]);
    assert_eq!(disk.calculate_checksum(), Some(7));
}

#[test]
fn a_file_changes_places_with_a_span_of_its_size() {
    let mut disk =
        FileSystemImproved::new(vec![Data::Empty(2), Data::File(5, 1), Data::File(6, 2)]);
    disk.compress_data();
    assert_eq!(disk.data, vec![Data::File(6, 2), Data::File(5, 1), Data::Empty(2)]);
    assert_eq!(disk.calculate_checksum(), Some(16));
}

#[test]
fn checksum_out_of_range_is_none() {
    let disk = FileSystem::new(vec![None, Some(u64::MAX), Some(1)]);
    assert_eq!(disk.calculate_checksum(), None);
    let disk = FileSystem::new(vec![None, Some(u64::MAX)]);
    assert_eq!(disk.calculate_checksum(), Some(u64::MAX));
    let disk = FileSystemImproved::new(vec![Data::Empty(1), Data::File(u64::MAX, 2)]);
    assert_eq!(disk.calculate_checksum(), None);
    let disk = FileSystemImproved::new(vec![Data::Empty(u64::MAX), Data::Empty(1)]);
    assert_eq!(disk.calculate_checksum(), None);
    let disk = FileSystemImproved::new(vec![Data::File(1, u64::MAX)]);
    assert_eq!(disk.calculate_checksum(), None);
    let disk = FileSystemImproved::new(vec![Data::Empty(3), Data::File(2, 3)]);
    assert_eq!(disk.calculate_checksum(), Some(24));
}

#[test]
fn data_tells_what_it_is() {
    let file = Data::File(7, 3);
    let free = Data::Empty(4);
    assert_eq!(file.get_size(), 3);
    assert_eq!(free.get_size(), 4);
    assert!(file.is_file() && !file.is_empty());
    assert!(free.is_empty() && !free.is_file());
    assert_eq!(file.fid(), 7);
    assert_eq!(file.fid_or(9), 7);
    assert_eq!(free.fid_or(9), 9);
}

#[test]
fn numbers_of_several_digits_are_drawn_in_full() {
    let disk = FileSystem::new(vec![Some(0), None, Some(10), Some(123), None]);
    assert_eq!(disk.render(), "0.10123.");
    assert_eq!(FileSystem::new(vec![]).render(), "");
    let disk = FileSystemImproved::new(vec![
        Data::File(12, 2),
        Data::Empty(3),
        Data::File(0, 1),
        Data::Empty(0),
        Data::File(7, 0),
    ]);
    assert_eq!(disk.render(), "1212...0");
    assert_eq!(FileSystemImproved::new(vec![]).render(), "");
}
