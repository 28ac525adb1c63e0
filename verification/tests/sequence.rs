use slang_preview::sequence::{sequence_order, DirEntryInfo};

fn file(name: &str) -> DirEntryInfo {
    DirEntryInfo { name: name.to_string(), is_file: true }
}

#[test]
fn numbered_pngs_sort_numerically_not_lexically() {
    let entries = vec![
        file("frame_2.png"),
        file("frame_10.png"),
        file("frame_1.png"),
        file("ignore.png"),
        file("notes.txt"),
    ];
    assert_eq!(sequence_order(&entries), vec![2, 0, 1]);
}

#[test]
fn extension_case_directories_and_dotfiles() {
    let entries = vec![
        file("b_0003.PNG"),
        DirEntryInfo { name: "dir_1.png".to_string(), is_file: false },
        file(".png"),
        file("7.png"),
        file("a_0003.png"),
        file("x.png.bak"),
        file("12"),
    ];
    // 7.png (7) after the two 3s, which tie on number and sort by name.
    assert_eq!(sequence_order(&entries), vec![4, 0, 3]);
}

#[test]
fn nothing_selected_is_empty() {
    assert!(sequence_order(&vec![file("readme.txt")]).is_empty());
    assert!(sequence_order(&vec![]).is_empty());
}
