use buildsys::fsmodel::{EntryKind, FileFilter, FsModel};
use buildsys::lifecycle::{
    check_clean_pre, check_marker_dir_pre, check_promote_pre, clean_build_files, copy_build_files,
    create_marker_dir,
};
use buildsys::BuildType;

fn dir(fs: &mut FsModel, p: &[u8]) {
    fs.set_entry(p.to_vec(), EntryKind::Dir);
}

fn file(fs: &mut FsModel, p: &[u8]) {
    fs.set_entry(p.to_vec(), EntryKind::File);
}

fn kind(fs: &FsModel, p: &[u8]) -> Option<EntryKind> {
    fs.lookup(&p.to_vec())
}

/// The end-to-end promotion scenario: an empty marker state, one output
/// directory, and a build tree with two nested artifacts.
#[test]
fn promote_moves_artifacts_and_writes_markers() {
    let mut fs = FsModel::new();
    dir(&mut fs, b"bd");
    dir(&mut fs, b"bd/pkg");
    file(&mut fs, b"bd/pkg/foo.rpm");
    dir(&mut fs, b"bd/pkg/sub");
    file(&mut fs, b"bd/pkg/sub/bar.rpm");
    dir(&mut fs, b"out");

    copy_build_files(&mut fs, &b"bd".to_vec(), &b"out".to_vec());

    // the output tree holds both artifacts
    assert_eq!(kind(&fs, b"out/pkg/foo.rpm"), Some(EntryKind::File));
    assert_eq!(kind(&fs, b"out/pkg/sub/bar.rpm"), Some(EntryKind::File));
    assert_eq!(kind(&fs, b"out/pkg"), Some(EntryKind::Dir));
    assert_eq!(kind(&fs, b"out/pkg/sub"), Some(EntryKind::Dir));
    // the build tree holds the markers and no longer the data files
    assert_eq!(kind(&fs, b"bd/pkg/foo.rpm.buildsys_marker"), Some(EntryKind::File));
    assert_eq!(kind(&fs, b"bd/pkg/sub/bar.rpm.buildsys_marker"), Some(EntryKind::File));
    assert_eq!(kind(&fs, b"bd/pkg/foo.rpm"), None);
    assert_eq!(kind(&fs, b"bd/pkg/sub/bar.rpm"), None);
}

/// Promotion followed by cleanup returns both trees to their prior state.
#[test]
fn promote_then_clean_round_trip() {
    let mut fs = FsModel::new();
    dir(&mut fs, b"bd");
    dir(&mut fs, b"bd/pkg");
    file(&mut fs, b"bd/pkg/foo.rpm");
    file(&mut fs, b"bd/pkg/bar.rpm");
    dir(&mut fs, b"out");
    file(&mut fs, b"out/keep.txt");

    copy_build_files(&mut fs, &b"bd".to_vec(), &b"out".to_vec());
    clean_build_files(&mut fs, &b"bd".to_vec(), &vec![b"out".to_vec()]);

    // the output tree is back to what it held before
    assert_eq!(kind(&fs, b"out"), Some(EntryKind::Dir));
    assert_eq!(kind(&fs, b"out/keep.txt"), Some(EntryKind::File));
    assert_eq!(kind(&fs, b"out/pkg"), None);
    assert_eq!(kind(&fs, b"out/pkg/foo.rpm"), None);
    assert_eq!(kind(&fs, b"out/pkg/bar.rpm"), None);
    // the marker tree is emptied of markers and emptied directories
    assert_eq!(kind(&fs, b"bd"), Some(EntryKind::Dir));
    assert_eq!(kind(&fs, b"bd/pkg"), None);
    assert_eq!(kind(&fs, b"bd/pkg/foo.rpm.buildsys_marker"), None);
    assert_eq!(kind(&fs, b"bd/pkg/bar.rpm.buildsys_marker"), None);
}

/// A second cleanup with nothing promoted in between changes nothing.
#[test]
fn clean_twice_is_idempotent() {
    let mut fs = FsModel::new();
    dir(&mut fs, b"md");
    dir(&mut fs, b"md/a");
    file(&mut fs, b"md/a/x.rpm.buildsys_marker");
    file(&mut fs, b"md/a/other.log");
    dir(&mut fs, b"out");
    dir(&mut fs, b"out/a");
    file(&mut fs, b"out/a/x.rpm");

    clean_build_files(&mut fs, &b"md".to_vec(), &vec![b"out".to_vec()]);
    let probes: [&[u8]; 7] = [
        b"md",
        b"md/a",
        b"md/a/x.rpm.buildsys_marker",
        b"md/a/other.log",
        b"out",
        b"out/a",
        b"out/a/x.rpm",
    ];
    let before: Vec<Option<EntryKind>> = probes.iter().map(|p| kind(&fs, p)).collect();

    clean_build_files(&mut fs, &b"md".to_vec(), &vec![b"out".to_vec()]);
    let after: Vec<Option<EntryKind>> = probes.iter().map(|p| kind(&fs, p)).collect();
    assert_eq!(before, after);

    // the first pass did its work: marker and artifact gone, the stray
    // file and its directory kept
    assert_eq!(kind(&fs, b"md/a/x.rpm.buildsys_marker"), None);
    assert_eq!(kind(&fs, b"out/a/x.rpm"), None);
    assert_eq!(kind(&fs, b"md/a/other.log"), Some(EntryKind::File));
    assert_eq!(kind(&fs, b"md/a"), Some(EntryKind::Dir));
    assert_eq!(kind(&fs, b"out/a"), None);
}

/// Directory collection removes emptied directories bottom-up and stops at
/// the first directory that still holds something.
#[test]
fn clean_removes_empty_directories_bottom_up() {
    let mut fs = FsModel::new();
    dir(&mut fs, b"md");
    dir(&mut fs, b"md/a");
    dir(&mut fs, b"md/a/b");
    dir(&mut fs, b"md/a/b/c");
    file(&mut fs, b"md/a/b/c/file.buildsys_marker");
    dir(&mut fs, b"out");

    clean_build_files(&mut fs, &b"md".to_vec(), &vec![b"out".to_vec()]);
    assert_eq!(kind(&fs, b"md/a/b/c"), None);
    assert_eq!(kind(&fs, b"md/a/b"), None);
    assert_eq!(kind(&fs, b"md/a"), None);
    assert_eq!(kind(&fs, b"md"), Some(EntryKind::Dir));

    // the ascent stops at a directory that is not empty
    let mut fs = FsModel::new();
    dir(&mut fs, b"md");
    dir(&mut fs, b"md/a");
    file(&mut fs, b"md/a/keep.log");
    dir(&mut fs, b"md/a/b");
    dir(&mut fs, b"md/a/b/c");
    file(&mut fs, b"md/a/b/c/file.buildsys_marker");
    dir(&mut fs, b"out");

    clean_build_files(&mut fs, &b"md".to_vec(), &vec![b"out".to_vec()]);
    assert_eq!(kind(&fs, b"md/a/b/c"), None);
    assert_eq!(kind(&fs, b"md/a/b"), None);
    assert_eq!(kind(&fs, b"md/a"), Some(EntryKind::Dir));
    assert_eq!(kind(&fs, b"md/a/keep.log"), Some(EntryKind::File));
}

/// Cleanup consults every configured output directory.
#[test]
fn clean_covers_all_output_directories() {
    let mut fs = FsModel::new();
    dir(&mut fs, b"md");
    file(&mut fs, b"md/x.rpm.buildsys_marker");
    dir(&mut fs, b"o1");
    file(&mut fs, b"o1/x.rpm");
    dir(&mut fs, b"o2");
    file(&mut fs, b"o2/x.rpm");

    clean_build_files(&mut fs, &b"md".to_vec(), &vec![b"o1".to_vec(), b"o2".to_vec()]);
    assert_eq!(kind(&fs, b"o1/x.rpm"), None);
    assert_eq!(kind(&fs, b"o2/x.rpm"), None);
    assert_eq!(kind(&fs, b"o1"), Some(EntryKind::Dir));
    assert_eq!(kind(&fs, b"o2"), Some(EntryKind::Dir));
}

/// Symlinks are promoted; directories are traversed but not promoted.
#[test]
fn promote_takes_symlinks_and_skips_markers() {
    let mut fs = FsModel::new();
    dir(&mut fs, b"bd");
    fs.set_entry(b"bd/latest".to_vec(), EntryKind::Symlink);
    file(&mut fs, b"bd/seen.rpm.buildsys_marker");
    dir(&mut fs, b"out");

    copy_build_files(&mut fs, &b"bd".to_vec(), &b"out".to_vec());
    assert_eq!(kind(&fs, b"out/latest"), Some(EntryKind::Symlink));
    assert_eq!(kind(&fs, b"bd/latest"), None);
    assert_eq!(kind(&fs, b"bd/latest.buildsys_marker"), Some(EntryKind::File));
    // an old marker is not treated as an artifact
    assert_eq!(kind(&fs, b"out/seen.rpm.buildsys_marker"), None);
    assert_eq!(kind(&fs, b"bd/seen.rpm.buildsys_marker"), Some(EntryKind::File));
}

#[test]
fn find_files_selects_by_filter() {
    let mut fs = FsModel::new();
    dir(&mut fs, b"d");
    file(&mut fs, b"d/a.rpm");
    file(&mut fs, b"d/a.rpm.buildsys_marker");
    fs.set_entry(b"d/l".to_vec(), EntryKind::Symlink);
    let arts = fs.find_files(&b"d".to_vec(), FileFilter::Artifacts);
    let marks = fs.find_files(&b"d".to_vec(), FileFilter::Markers);
    let mut art_paths: Vec<Vec<u8>> = arts;
    art_paths.sort();
    assert_eq!(art_paths, vec![b"d/a.rpm".to_vec(), b"d/l".to_vec()]);
    assert_eq!(marks, vec![b"d/a.rpm.buildsys_marker".to_vec()]);
}

/// The marker directory is keyed by architecture, kind, and name, and its
/// creation is idempotent.
#[test]
fn marker_dir_layout_and_idempotence() {
    let mut fs = FsModel::new();
    dir(&mut fs, b"state");
    let p = create_marker_dir(
        &mut fs,
        &BuildType::Package,
        &b"foo".to_vec(),
        &b"x86_64".to_vec(),
        &b"state".to_vec(),
    );
    assert_eq!(p, b"state/x86_64/packages/foo".to_vec());
    assert_eq!(kind(&fs, b"state/x86_64/packages/foo"), Some(EntryKind::Dir));

    let p2 = create_marker_dir(
        &mut fs,
        &BuildType::Package,
        &b"foo".to_vec(),
        &b"x86_64".to_vec(),
        &b"state".to_vec(),
    );
    assert_eq!(p2, p);

    let v = create_marker_dir(
        &mut fs,
        &BuildType::Repack,
        &b"aws-dev".to_vec(),
        &b"aarch64".to_vec(),
        &b"state".to_vec(),
    );
    assert_eq!(v, b"state/aarch64/variants/aws-dev".to_vec());
    let k = create_marker_dir(
        &mut fs,
        &BuildType::Kit,
        &b"core".to_vec(),
        &b"x86_64".to_vec(),
        &b"state".to_vec(),
    );
    assert_eq!(k, b"state/x86_64/kits/core".to_vec());
}

/// A directory sitting at a named artifact path is removed like a file,
/// provided nothing is inside it.
#[test]
fn clean_removes_a_directory_victim() {
    let mut fs = FsModel::new();
    dir(&mut fs, b"md");
    file(&mut fs, b"md/x.img.buildsys_marker");
    dir(&mut fs, b"out");
    dir(&mut fs, b"out/x.img");
    assert!(check_clean_pre(&fs, &b"md".to_vec(), &vec![b"out".to_vec()]));
    clean_build_files(&mut fs, &b"md".to_vec(), &vec![b"out".to_vec()]);
    assert_eq!(kind(&fs, b"out/x.img"), None);
    assert_eq!(kind(&fs, b"md/x.img.buildsys_marker"), None);

    // a directory victim that still holds something is not admitted
    let mut fs = FsModel::new();
    dir(&mut fs, b"md");
    file(&mut fs, b"md/x.img.buildsys_marker");
    dir(&mut fs, b"out");
    dir(&mut fs, b"out/x.img");
    file(&mut fs, b"out/x.img/inner");
    assert!(!check_clean_pre(&fs, &b"md".to_vec(), &vec![b"out".to_vec()]));
}

/// The checkers mirror the lifecycle preconditions.
#[test]
fn precondition_checkers_judge_trees() {
    let mut fs = FsModel::new();
    dir(&mut fs, b"bd");
    file(&mut fs, b"bd/a.rpm");
    dir(&mut fs, b"out");
    assert!(check_promote_pre(&fs, &b"bd".to_vec(), &b"out".to_vec()));
    // a directory in the way of a promoted file is refused
    dir(&mut fs, b"out/a.rpm");
    assert!(!check_promote_pre(&fs, &b"bd".to_vec(), &b"out".to_vec()));
    // overlapping trees are refused
    assert!(!check_promote_pre(&fs, &b"bd".to_vec(), &b"bd".to_vec()));

    let mut fs = FsModel::new();
    dir(&mut fs, b"state");
    assert!(check_marker_dir_pre(
        &fs,
        &BuildType::Package,
        &b"foo".to_vec(),
        &b"x86_64".to_vec(),
        &b"state".to_vec()
    ));
    assert!(!check_marker_dir_pre(
        &fs,
        &BuildType::Package,
        &b"fo/o".to_vec(),
        &b"x86_64".to_vec(),
        &b"state".to_vec()
    ));
}

/// The checked insertion refuses what would break the tree.
#[test]
fn add_entry_guards_the_tree() {
    let mut fs = FsModel::new();
    assert!(fs.add_entry(b"a".to_vec(), EntryKind::Dir));
    assert!(fs.add_entry(b"a/b".to_vec(), EntryKind::File));
    // a missing parent directory is refused
    assert!(!fs.add_entry(b"c/d".to_vec(), EntryKind::File));
    // an ill-formed path is refused
    assert!(!fs.add_entry(b"/a".to_vec(), EntryKind::File));
    assert!(!fs.add_entry(b"a//b".to_vec(), EntryKind::File));
    // turning a filled directory into a file is refused
    assert!(!fs.add_entry(b"a".to_vec(), EntryKind::File));
    assert_eq!(kind(&fs, b"a/b"), Some(EntryKind::File));
}
