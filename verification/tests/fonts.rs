use md_viewer_rs::fonts::{
    best_face, build_font_catalog, choose_font, face_score, select_font_file, FaceCandidate,
    FaceInfo, FaceStyle,
};

fn strs(v: &[&str]) -> Vec<String> {
    v.iter().map(|s| s.to_string()).collect()
}

fn face(file: usize, style: FaceStyle, weight: u16, monospaced: bool) -> FaceCandidate {
    FaceCandidate { file, style, weight, monospaced }
}

#[test]
fn choose_font_prefers_case_insensitive_match() {
    let fonts = strs(&["Noto Sans", "adwaita sans", "Adwaita Sans"]);
    assert_eq!(choose_font(&fonts, "Adwaita Sans"), "adwaita sans");
}

#[test]
fn choose_font_falls_back_to_first_then_preferred() {
    assert_eq!(choose_font(&strs(&["Noto Sans", "DejaVu"]), "Adwaita Sans"), "Noto Sans");
    assert_eq!(choose_font(&[], "Source Code Pro"), "Source Code Pro");
}

#[test]
fn face_scores() {
    assert_eq!(face_score(&face(0, FaceStyle::Normal, 400, false), false), 0);
    assert_eq!(face_score(&face(0, FaceStyle::Italic, 700, true), false), 380);
    assert_eq!(face_score(&face(0, FaceStyle::Oblique, 100, false), true), 420);
    assert_eq!(face_score(&face(0, FaceStyle::Normal, 400, true), true), 0);
}

#[test]
fn best_face_is_first_of_least_score() {
    let faces = vec![
        face(0, FaceStyle::Italic, 400, false),
        face(1, FaceStyle::Normal, 450, false),
        face(2, FaceStyle::Normal, 350, false),
    ];
    assert_eq!(best_face(&faces, false), Some(1));
    assert_eq!(best_face(&[], true), None);
}

fn sample_infos() -> Vec<FaceInfo> {
    vec![
        FaceInfo {
            families: strs(&["B Font", "  "]),
            file: Some(0),
            style: FaceStyle::Normal,
            weight: 400,
            monospaced: false,
        },
        FaceInfo {
            families: strs(&["A Font"]),
            file: None,
            style: FaceStyle::Normal,
            weight: 400,
            monospaced: false,
        },
        FaceInfo {
            families: strs(&["A Font", "B Font"]),
            file: Some(1),
            style: FaceStyle::Italic,
            weight: 700,
            monospaced: true,
        },
    ]
}

#[test]
fn catalog_lists_sorted_unique_names() {
    let cat = build_font_catalog(&sample_infos());
    assert_eq!(cat.names, strs(&["A Font", "B Font"]));
    assert_eq!(cat.families.len(), 2);
    assert_eq!(cat.families[0].name, "A Font");
    let a: Vec<usize> = cat.families[0].faces.iter().map(|f| f.file).collect();
    assert_eq!(a, vec![1]);
    assert_eq!(cat.families[1].name, "B Font");
    let b: Vec<usize> = cat.families[1].faces.iter().map(|f| f.file).collect();
    assert_eq!(b, vec![0, 1]);
}

#[test]
fn catalog_of_nothing_lists_proportional() {
    let cat = build_font_catalog(&vec![]);
    assert_eq!(cat.names, strs(&["Proportional"]));
    assert!(cat.families.is_empty());
}

#[test]
fn select_font_file_picks_best_face_of_family() {
    let cat = build_font_catalog(&sample_infos());
    assert_eq!(select_font_file(&cat, "B Font", false), Some(0));
    assert_eq!(select_font_file(&cat, "B Font", true), Some(0));
    assert_eq!(select_font_file(&cat, "A Font", true), Some(1));
    assert_eq!(select_font_file(&cat, "a font", true), None);
    assert_eq!(select_font_file(&cat, "Missing", false), None);
}
