use mwkb::data::parse_pageid;
use mwkb::data::try_parse_pageid;
use mwkb::data::u32_decimal;
use mwkb::data::Data;
use mwkb::data::DataError;
use mwkb::title::Title;

#[test]
fn data_layout_paths() {
    let data = Data::new("test_dir_1145141919810");
    assert_eq!(data.title_file, "test_dir_1145141919810/titles.csv");
    assert_eq!(data.markuped_text_dir, "test_dir_1145141919810/raw");
    assert_eq!(data.parsed_text_dir, "test_dir_1145141919810/parsed");
    assert_eq!(data.biluo_dir, "test_dir_1145141919810/biluo");
    assert_eq!(data.markuped_text_path(893), "test_dir_1145141919810/raw/893.txt");
    assert_eq!(data.parsed_text_path(893), "test_dir_1145141919810/parsed/893.json");
    assert_eq!(data.markuped_text_pattern(), "test_dir_1145141919810/raw/*.txt");
    assert_eq!(data.parsed_text_pattern(), "test_dir_1145141919810/parsed/*.json");
    assert_eq!(data.biluo_pattern(), "test_dir_1145141919810/biluo/*.tsv");
}

#[test]
fn pageid_from_paths() {
    assert_eq!(parse_pageid("test_dir_1145141919810/raw/893.txt"), 893);
    assert_eq!(parse_pageid("893.txt"), 893);
    assert_eq!(parse_pageid("dir/007.txt"), 7);
    assert_eq!(try_parse_pageid("dir/4294967295.txt"), Some(u32::MAX));
    assert_eq!(try_parse_pageid("dir/4294967296.txt"), None);
    assert_eq!(try_parse_pageid("dir/.txt"), None);
    assert_eq!(try_parse_pageid("dir/a93.txt"), None);
    assert_eq!(try_parse_pageid("dir/"), None);
    assert_eq!(try_parse_pageid("dir/12.5.txt"), None);
    assert_eq!(try_parse_pageid("12"), Some(12));
}

#[test]
fn u32_decimal_renders() {
    assert_eq!(u32_decimal(0), "0");
    assert_eq!(u32_decimal(7), "7");
    assert_eq!(u32_decimal(893), "893");
    assert_eq!(u32_decimal(4294967295), "4294967295");
}

#[test]
fn pageid_set_from_paths() {
    let data = Data::new("test_dir_1145141919810");
    let ids = data.make_pageid_set_from_markuped_text_files(&vec![]).unwrap();
    assert_eq!(ids.len(), 0);
    let paths = vec!["test_dir_1145141919810/raw/893.txt".to_string()];
    let ids = data.make_pageid_set_from_markuped_text_files(&paths).unwrap();
    assert_eq!(ids.len(), 1);
    assert!(ids.contains(&893));
    let paths = vec!["a/1.txt".to_string(), "a/2.txt".to_string(), "a/1.txt".to_string()];
    let ids = data.make_pageid_set_from_markuped_text_files(&paths).unwrap();
    assert_eq!(ids.len(), 2);
    assert!(ids.contains(&1) && ids.contains(&2));
    let paths = vec!["a/1.txt".to_string(), "a/x.txt".to_string()];
    assert_eq!(
        data.make_pageid_set_from_markuped_text_files(&paths),
        Err(DataError::InvalidPageId),
    );
}

#[test]
fn title_record() {
    let t = Title::new(42, "Stone".to_string());
    assert_eq!(t.id, 42);
    assert_eq!(t.name, "Stone");
}
