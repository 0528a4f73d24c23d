use advent_puzzles::dirs::size_of_small_dirs;
use advent_puzzles::dirs::DirTree;

const SAMPLE_INPUT: &str = "$ cd /\n$ ls\ndir a\n14848514 b.txt\n8504156 c.dat\ndir d\n$ cd a\n$ ls\ndir e\n29116 f\n2557 g\n62596 h.lst\n$ cd e\n$ ls\n584 i\n$ cd ..\n$ cd ..\n$ cd d\n$ ls\n4060174 j\n8033020 d.log\n5626152 d.ext\n7214296 k";

#[test]
fn test_sample_input() {
    assert_eq!(size_of_small_dirs(SAMPLE_INPUT), 95437)
}

#[test]
fn smallest_directory_to_delete() {
    assert_eq!(advent_puzzles::dirs::smallest_directory_to_delete(SAMPLE_INPUT), 24933642);
}

#[test]
fn sizes_cover_nested_directories() {
    let mut root = DirTree { name: vec![47], directories: vec![], files: vec![] };
    root.add_file(100);
    let mut child = root.new_sub_directory(vec![97]);
    child.add_file(50);
    let dirs = vec![root, child];
    assert_eq!(dirs[0].size(&dirs), 150);
    assert_eq!(dirs[1].size(&dirs), 50);
    assert_eq!(dirs[0].file_size(), 100);
}
