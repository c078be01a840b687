use gguf_rs::loader::parse_split_index;

#[test]
fn test_parse_split_index() {
    assert_eq!(
        parse_split_index("MiniMax-M2.7-UD-IQ4_XS-00001-of-00004.gguf"),
        Some((1, 4))
    );
    assert_eq!(parse_split_index("model-00003-of-00005.gguf"), Some((3, 5)));
    assert_eq!(parse_split_index("single.gguf"), None);
}

use gguf_rs::loader::{sibling_name, SplitLayout};

#[test]
fn names_of_the_other_files() {
    assert_eq!(sibling_name("m-00001-of-00012.gguf", 7, 12), "m-00007-of-00012.gguf");
    assert_eq!(sibling_name("m.gguf", 2, 3), "m.gguf");
}

#[test]
fn names_of_parts_read_back() {
    for (index, total) in [(1usize, 4usize), (7, 12), (99999, 100000), (123456, 1234567)] {
        let name = sibling_name(&format!("a-of-b-00001-of-{total:05}.gguf"), index, total);
        assert_eq!(name, format!("a-of-b-{index:05}-of-{total:05}.gguf"));
        assert_eq!(parse_split_index(&name), Some((index, total)));
    }
}

#[test]
fn no_split_index() {
    assert_eq!(parse_split_index("m-of-00004.gguf"), None);
    assert_eq!(parse_split_index("m-00001-of-4x.gguf"), None);
}

#[test]
fn ranges_lie_in_one_file() {
    let mut layout = SplitLayout::new();
    assert_eq!(layout.total(), 0);
    layout.push(100);
    layout.push(50);
    assert_eq!(layout.total(), 150);
    assert_eq!(layout.locate(0, 100), Some((0, 0)));
    assert_eq!(layout.locate(99, 1), Some((0, 99)));
    assert_eq!(layout.locate(100, 50), Some((1, 0)));
    assert_eq!(layout.locate(120, 30), Some((1, 20)));
    // A range across two files, and one past the end, have no place.
    assert_eq!(layout.locate(99, 2), None);
    assert_eq!(layout.locate(120, 31), None);
    assert_eq!(layout.locate(u64::MAX, usize::MAX), None);
}
