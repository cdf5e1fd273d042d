use photo_tools::catalog::photo_database;
use photo_tools::photo::{FilterMode, PhotoDir};
use photo_tools::resolver::{delete_photos, quarantine_dir};

fn dir(filter: FilterMode) -> PhotoDir {
    PhotoDir {
        path: String::from("/photos"),
        filter,
        raw_ext: String::from("RAF"),
        img_ext: String::from("JPG"),
    }
}

fn names(list: &[&str]) -> Vec<String> {
    list.iter().map(|s| s.to_string()).collect()
}

fn sorted_moves(d: &PhotoDir, list: &[&str], exists: bool, delete: bool) -> (bool, bool, String, Vec<(String, String)>) {
    let c = photo_database(d, &names(list)).ok().unwrap();
    let plan = delete_photos(d, &c, exists, delete);
    let mut moves: Vec<(String, String)> =
        plan.moves.iter().map(|m| (m.source.clone(), m.target.clone())).collect();
    moves.sort();
    (plan.create_quarantine, plan.remove_quarantine, plan.quarantine, moves)
}

#[test]
fn scenario_keep_run() {
    let d = dir(FilterMode::Img);
    let (create, remove, q, moves) = sorted_moves(&d, &["a.RAF", "a.JPG", "b.RAF", "c.JPG"], false, false);
    assert!(create);
    assert!(!remove);
    assert_eq!(q, "/photos/to_delete/");
    assert_eq!(moves, vec![("/photos/c.JPG".to_string(), "/photos/to_delete/c.JPG".to_string())]);
}

#[test]
fn scenario_delete_run() {
    let d = dir(FilterMode::Img);
    let (create, remove, _, moves) = sorted_moves(&d, &["a.RAF", "a.JPG", "b.RAF", "c.JPG"], true, true);
    assert!(!create);
    assert!(remove);
    assert_eq!(moves, vec![("/photos/c.JPG".to_string(), "/photos/to_delete/c.JPG".to_string())]);
}

#[test]
fn raw_filter_moves_raw_orphans() {
    let d = dir(FilterMode::Raw);
    let (_, _, _, moves) = sorted_moves(&d, &["a.RAF", "a.JPG", "b.RAF", "c.JPG", "e.RAF"], false, false);
    assert_eq!(
        moves,
        vec![
            ("/photos/b.RAF".to_string(), "/photos/to_delete/b.RAF".to_string()),
            ("/photos/e.RAF".to_string(), "/photos/to_delete/e.RAF".to_string()),
        ]
    );
}

#[test]
fn complete_pairs_move_nothing() {
    let d = dir(FilterMode::Raw);
    let (_, _, _, moves) = sorted_moves(&d, &["a.RAF", "a.JPG", "b.JPG", "b.RAF", "x.TIF"], false, false);
    assert!(moves.is_empty());
}

#[test]
fn moved_files_keep_name_and_extension() {
    let d = dir(FilterMode::Img);
    let (_, _, _, moves) = sorted_moves(&d, &["IMG_0042.JPG", "my.trip.JPG"], false, false);
    assert_eq!(moves.len(), 2);
    for (src, dst) in &moves {
        let base_src = src.rsplit('/').next().unwrap();
        let base_dst = dst.rsplit('/').next().unwrap();
        assert_eq!(base_src, base_dst);
        assert!(dst.starts_with("/photos/to_delete/"));
    }
    assert_eq!(moves[0].1, "/photos/to_delete/IMG_0042.JPG");
    assert_eq!(moves[1].1, "/photos/to_delete/my.trip.JPG");
}

#[test]
fn quarantine_directory_name() {
    let d = dir(FilterMode::Raw);
    assert_eq!(quarantine_dir(&d), "/photos/to_delete/");
}
