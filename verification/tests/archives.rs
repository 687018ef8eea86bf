use fsvfs::archives::{ArchivePaths, BhdPath};

#[test]
fn bdt_next_to_bhd() {
    let bdt = |p: &str| BhdPath(p.to_string()).to_bdt();
    assert_eq!(bdt("Game/Data1.bhd"), "Game/Data1.bdt");
    assert_eq!(bdt("DATA/dvdbnd0.bhd5"), "DATA/dvdbnd0.bdt");
    assert_eq!(bdt("a.b/file"), "a.b/file.bdt");
    assert_eq!(bdt("dir/.hidden"), "dir/.hidden.bdt");
    assert_eq!(bdt("dir/"), "dir/");
    assert_eq!(BhdPath("x.bhd".to_string()).as_bhd(), "x.bhd");
}

#[test]
fn archive_paths_order() {
    let paths: Vec<String> = ["Game/Data2.bdt", "Game/Data2.bhd", "Game/Data1.bdt", "Game/Data1.bhd"]
        .iter()
        .map(|p| p.to_string())
        .collect();
    let archives = ArchivePaths::new(&paths);
    let got: Vec<(&str, &str)> = archives
        .paths
        .iter()
        .map(|(name, path)| (path.as_bhd(), name.as_str()))
        .collect();
    assert_eq!(got, vec![("Game/Data2.bhd", "data2"), ("Game/Data1.bhd", "data1")]);
}

#[test]
fn archive_names_replace_in_place() {
    let paths: Vec<String> = ["a/X.bhd", "b/y.bhd", "c/x.BHD5", "d/..", "e/z.bhd/", ""]
        .iter()
        .map(|p| p.to_string())
        .collect();
    let archives = ArchivePaths::new(&paths);
    let got: Vec<(&str, &str)> = archives
        .paths
        .iter()
        .map(|(name, path)| (name.as_str(), path.as_bhd()))
        .collect();
    assert_eq!(got, vec![("x", "c/x.BHD5"), ("y", "b/y.bhd"), ("z", "e/z.bhd/")]);
}
