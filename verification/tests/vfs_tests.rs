use vfs_registry::vfs::MountPoint;
use vfs_registry::vfs::VfsError;
use vfs_registry::vfs::VFS;

#[test]
fn test_virtual_to_real() {
    let mut vfs = VFS::new();
    vfs.mount("test_dir", "root").unwrap();

    let correct_path = String::from("test_dir/somewhere/something.png");
    let virtual_path = String::from("root/somewhere/something.png");

    let found_path = vfs.virtual_to_real(virtual_path.as_str()).unwrap();
    assert!(found_path == correct_path);
}

#[test]
fn test_virtual_to_real_no_trail() {
    let mut vfs = VFS::new();
    vfs.mount("test_dir", "root").unwrap();
    let correct_path = String::from("test_dir");
    let found_path = vfs.virtual_to_real("root").unwrap();
    assert!(found_path == correct_path);
}

#[test]
fn test_real_to_virtual() {
    let mut vfs = VFS::new();
    vfs.mount("test_dir", "root").unwrap();

    let correct_path = String::from("root/somewhere/something.png");
    let real_path = String::from("test_dir/somewhere/something.png");

    let found_path = vfs.real_to_virtual(real_path.as_str()).unwrap();
    assert!(found_path == correct_path);
}

#[test]
fn test_real_to_virtual_no_trail() {
    let mut vfs = VFS::new();
    vfs.mount("test_dir", "root").unwrap();
    assert_eq!(vfs.real_to_virtual("test_dir").unwrap(), String::from("root"));
}

#[test]
fn test_round_trip_both_directions() {
    let mut vfs = VFS::new();
    vfs.mount("test_dir", "root").unwrap();

    let real = String::from("test_dir/somewhere/something.png");
    let there = vfs.real_to_virtual(real.as_str()).unwrap();
    let back = vfs.virtual_to_real(there.as_str()).unwrap();
    assert_eq!(back, real);

    let virt = String::from("root/somewhere/something.png");
    let there = vfs.virtual_to_real(virt.as_str()).unwrap();
    let back = vfs.real_to_virtual(there.as_str()).unwrap();
    assert_eq!(back, virt);

    // The empty suffix round-trips too.
    assert_eq!(vfs.virtual_to_real(vfs.real_to_virtual("test_dir").unwrap().as_str()).unwrap(), String::from("test_dir"));
}

#[test]
fn test_unmounted_miss_both_directions() {
    let vfs = VFS::new();
    assert_eq!(vfs.virtual_to_real("root"), Err(VfsError::NoMatch));
    assert_eq!(vfs.real_to_virtual("anything"), Err(VfsError::NoMatch));
}

#[test]
fn test_miss_under_populated_registry() {
    let mut vfs = VFS::new();
    vfs.mount("test_dir", "root").unwrap();
    // Substring but not component-wise prefix: no match.
    assert_eq!(vfs.real_to_virtual("test_dirx/file"), Err(VfsError::NoMatch));
    // Leading component must equal the name exactly.
    assert_eq!(vfs.virtual_to_real("rootx/file"), Err(VfsError::NoMatch));
}

#[test]
fn test_overwrite_last_wins() {
    let mut vfs = VFS::new();
    vfs.mount("a", "x").unwrap();
    vfs.mount("b", "x").unwrap();

    let points = vfs.get_mount_points();
    assert_eq!(points.len(), 1);
    assert_eq!(points[0].name, String::from("x"));
    assert_eq!(points[0].source, String::from("b"));

    assert_eq!(vfs.virtual_to_real("x/f").unwrap(), String::from("b/f"));
}

#[test]
fn test_tie_break_same_root_earliest_name_wins() {
    // Two names bound to the same real root: the documented rule picks
    // the binding mounted earliest among roots of equal length.
    let mut vfs = VFS::new();
    vfs.mount("a", "x").unwrap();
    vfs.mount("a", "y").unwrap();
    assert_eq!(vfs.real_to_virtual("a").unwrap(), String::from("x"));
    assert_eq!(vfs.real_to_virtual("a/f").unwrap(), String::from("x/f"));
}

#[test]
fn test_tie_break_longest_root_wins() {
    let mut vfs = VFS::new();
    vfs.mount("a", "x").unwrap();
    vfs.mount("a/b", "y").unwrap();
    assert_eq!(vfs.real_to_virtual("a/b/c").unwrap(), String::from("y/c"));
    assert_eq!(vfs.real_to_virtual("a/b").unwrap(), String::from("y"));
    assert_eq!(vfs.real_to_virtual("a/z").unwrap(), String::from("x/z"));
    // Mount order does not change the longest-root rule.
    let mut vfs2 = VFS::new();
    vfs2.mount("a/b", "y").unwrap();
    vfs2.mount("a", "x").unwrap();
    assert_eq!(vfs2.real_to_virtual("a/b/c").unwrap(), String::from("y/c"));
}

#[test]
fn test_trailing_separator_suffix_is_empty() {
    let mut vfs = VFS::new();
    vfs.mount("test_dir", "root").unwrap();
    assert_eq!(vfs.real_to_virtual("test_dir/").unwrap(), String::from("root"));
    assert_eq!(vfs.virtual_to_real("root/").unwrap(), String::from("test_dir"));
}

#[test]
fn test_get_mount_points_lists_all() {
    let mut vfs = VFS::new();
    vfs.mount("dir_a", "music").unwrap();
    vfs.mount("dir_b", "photos").unwrap();
    let points = vfs.get_mount_points();
    assert_eq!(points.len(), 2);
    assert_eq!(points[0].name, String::from("music"));
    assert_eq!(points[0].source, String::from("dir_a"));
    assert_eq!(points[1].name, String::from("photos"));
    assert_eq!(points[1].source, String::from("dir_b"));
}

#[test]
fn test_from_mount_points() {
    let records = vec![
        MountPoint { source: String::from("dir_a"), name: String::from("music") },
        MountPoint { source: String::from("dir_b"), name: String::from("photos") },
        MountPoint { source: String::from("dir_c"), name: String::from("music") },
    ];
    let vfs = VFS::from_mount_points(&records);
    // The later record for "music" won.
    assert_eq!(vfs.virtual_to_real("music/track.mp3").unwrap(), String::from("dir_c/track.mp3"));
    assert_eq!(vfs.virtual_to_real("photos").unwrap(), String::from("dir_b"));
    assert_eq!(vfs.get_mount_points().len(), 2);
}

#[test]
fn test_empty_registry_from_no_records() {
    let vfs = VFS::from_mount_points(&Vec::new());
    assert_eq!(vfs.get_mount_points().len(), 0);
    assert_eq!(vfs.real_to_virtual("a"), Err(VfsError::NoMatch));
}
