use bpb_enhance::registry::{parse_reg_output, registry_queries, steam_root_from_registry};
use bpb_enhance::steam::{
    dedup_by_keys, dedup_paths, detect_backpack_battles_pck, detect_default_path, join_path,
    keep_existing, looks_like_path, normalize_path_key, parse_libraryfolders_vdf,
    parse_quoted_kv_pair, pck_candidate, Platform, resolve_pck_path, ResolveError,
    steam_library_roots, steam_root_candidates, trimmed_input,
};
use bpb_enhance::text::{chars_of, split_marked, text_of, trim_marked};

#[test]
fn parse_new_format_paths() {
    let vdf = r#"
            "libraryfolders"
            {
                "0"
                {
                    "path"      "C:\\Program Files (x86)\\Steam"
                }
                "1"
                {
                    "path"      "D:\\SteamLibrary"
                }
            }
        "#;

    let paths = parse_libraryfolders_vdf(vdf);
    assert!(paths.iter().any(|p| p.contains("SteamLibrary")));
    assert!(paths.iter().any(|p| p.contains("Steam")));
}

#[test]
fn parse_old_format_paths() {
    let vdf = r#"
            "LibraryFolders"
            {
                "TimeNextStatsReport"    "123"
                "1"    "D:\\SteamLibrary"
                "2"    "E:\\Games\\Steam"
            }
        "#;

    let paths = parse_libraryfolders_vdf(vdf);
    assert!(paths.iter().any(|p| p.contains("SteamLibrary")));
    assert!(paths.iter().any(|p| p.contains("Games")));
}

#[test]
fn parse_kv_pair_unescapes_backslashes() {
    let line = r#""path" "D:\\SteamLibrary""#;
    let (k, v) = parse_quoted_kv_pair(line).unwrap();
    assert_eq!(k, "path");
    assert_eq!(v, r"D:\SteamLibrary");
}

#[test]
fn new_format_gives_exactly_the_path_values() {
    let vdf = "\"libraryfolders\"\n{\n\t\"0\"\n\t{\n\t\t\"path\"\t\t\"C:\\\\Steam\"\n\t\t\"label\"\t\t\"\"\n\t}\n\t\"1\"\n\t{\n\t\t\"PATH\"\t\t\"/mnt/games\"\r\n\t\t\"path\"\t\t\"\"\n\t}\n}\n";
    let paths = parse_libraryfolders_vdf(vdf);
    assert_eq!(paths, vec!["C:\\Steam".to_string(), "/mnt/games".to_string()]);
}

#[test]
fn old_format_skips_numbered_keys_that_name_no_path() {
    let vdf = "\"1\" \"D:\\\\Lib\"\n\"2\" \"123\"\n\"x3\" \"E:\\\\Lib\"\n\"\" \"/opt/steam\"";
    let paths = parse_libraryfolders_vdf(vdf);
    assert_eq!(paths, vec!["D:\\Lib".to_string(), "/opt/steam".to_string()]);
}

#[test]
fn empty_text_names_no_library() {
    assert!(parse_libraryfolders_vdf("").is_empty());
    assert!(parse_libraryfolders_vdf("\n\n   \n").is_empty());
}

#[test]
fn kv_pair_needs_two_quoted_strings() {
    assert_eq!(parse_quoted_kv_pair(""), None);
    assert_eq!(parse_quoted_kv_pair("no quotes here"), None);
    assert_eq!(parse_quoted_kv_pair("\"only\""), None);
    assert_eq!(
        parse_quoted_kv_pair("x \"a\" y \"b\" \"c\""),
        Some(("a".to_string(), "b".to_string()))
    );
}

#[test]
fn kv_pair_takes_an_open_string_to_the_end() {
    assert_eq!(
        parse_quoted_kv_pair("\"key\" \"val"),
        Some(("key".to_string(), "val".to_string()))
    );
    assert_eq!(
        parse_quoted_kv_pair("\"k\" \"a\\\"b\\"),
        Some(("k".to_string(), "a\"b".to_string()))
    );
}

#[test]
fn looks_like_path_accepts_the_four_shapes() {
    assert!(looks_like_path("/home/me"));
    assert!(looks_like_path("\\\\server\\share"));
    assert!(looks_like_path("D:\\Games"));
    assert!(looks_like_path("D:/Games"));
    assert!(!looks_like_path("123"));
    assert!(!looks_like_path(""));
    assert!(!looks_like_path("\\single"));
    assert!(!looks_like_path("a:b"));
}

#[test]
fn dedup_keeps_the_first_of_each_key() {
    let paths = vec!["/a".to_string(), "/b".to_string(), "/a".to_string(), "/A".to_string()];
    assert_eq!(
        dedup_paths(paths.clone(), false),
        vec!["/a".to_string(), "/b".to_string(), "/A".to_string()]
    );
    assert_eq!(dedup_paths(paths, true), vec!["/a".to_string(), "/b".to_string()]);
    assert!(dedup_paths(Vec::new(), true).is_empty());
}

#[test]
fn path_key_folds_case_only_when_asked() {
    assert_eq!(normalize_path_key("C:\\Steam", false), "C:\\Steam");
    assert_eq!(normalize_path_key("C:\\Steam", true), "c:\\steam");
}

#[test]
fn keep_existing_drops_what_was_not_found() {
    let candidates = vec!["/a".to_string(), "/b".to_string(), "/a".to_string(), "/c".to_string()];
    let kept = keep_existing(candidates, &vec![true, false, true], false);
    assert_eq!(kept, vec!["/a".to_string()]);
}

#[test]
fn join_adds_the_separator_once() {
    assert_eq!(join_path("/lib", "steamapps", '/'), "/lib/steamapps");
    assert_eq!(join_path("/lib/", "steamapps", '/'), "/lib/steamapps");
    assert_eq!(join_path("", "steamapps", '/'), "steamapps");
    assert_eq!(
        pck_candidate("D:\\Lib", '\\'),
        "D:\\Lib\\steamapps\\common\\Backpack Battles\\BackpackBattles.pck"
    );
}

#[test]
fn detect_returns_the_first_hit() {
    let roots = vec!["/one".to_string(), "/two".to_string(), "/three".to_string()];
    assert_eq!(
        detect_backpack_battles_pck(&roots, &vec![false, true, true], '/'),
        Some("/two/steamapps/common/Backpack Battles/BackpackBattles.pck".to_string())
    );
    assert_eq!(detect_backpack_battles_pck(&roots, &vec![false, false, false], '/'), None);
    assert_eq!(detect_backpack_battles_pck(&roots, &vec![], '/'), None);
    assert_eq!(detect_backpack_battles_pck(&Vec::new(), &vec![true], '/'), None);
}

#[test]
fn root_candidates_follow_the_platform() {
    assert_eq!(
        steam_root_candidates(Platform::Windows, Some("D:\\Steam".to_string()), None),
        vec![
            "D:\\Steam".to_string(),
            "C:\\Program Files (x86)\\Steam".to_string(),
            "C:\\Program Files\\Steam".to_string()
        ]
    );
    assert_eq!(
        steam_root_candidates(Platform::Linux, None, Some("/home/me".to_string())),
        vec!["/home/me/.local/share/Steam".to_string(), "/home/me/.steam/steam".to_string()]
    );
    assert_eq!(
        steam_root_candidates(Platform::MacOs, None, Some("/Users/me".to_string())),
        vec!["/Users/me/Library/Application Support/Steam".to_string()]
    );
    assert!(steam_root_candidates(Platform::Linux, None, None).is_empty());
    assert!(steam_root_candidates(Platform::Other, None, Some("/h".to_string())).is_empty());
}

#[test]
fn library_roots_start_with_the_installation() {
    assert_eq!(steam_library_roots("/steam", None), vec!["/steam".to_string()]);
    assert_eq!(
        steam_library_roots("/steam", Some("\"path\" \"/mnt/lib\"")),
        vec!["/steam".to_string(), "/mnt/lib".to_string()]
    );
}

#[test]
fn registry_answer_is_trimmed_and_backslashed() {
    assert_eq!(registry_queries().len(), 4);
    assert_eq!(registry_queries()[0], ("HKCU\\Software\\Valve\\Steam", "SteamPath"));
    let answers = vec![None, Some("   ".to_string()), Some(" c:/program files/steam \r\n".to_string())];
    assert_eq!(steam_root_from_registry(&answers), Some("c:\\program files\\steam".to_string()));
    assert_eq!(steam_root_from_registry(&vec![None, None]), None);
}

#[test]
fn resolve_prefers_the_file_then_the_folder() {
    assert_eq!(resolve_pck_path("   ", true, true, true, '/'), Err(ResolveError::EmptyInput));
    assert_eq!(resolve_pck_path(" /g/a.pck ", true, false, false, '/'), Ok("/g/a.pck".to_string()));
    assert_eq!(
        resolve_pck_path("/g", false, true, true, '/'),
        Ok("/g/BackpackBattles.pck".to_string())
    );
    assert_eq!(resolve_pck_path("/g", false, true, false, '/'), Err(ResolveError::NotFound));
    assert_eq!(resolve_pck_path("/g", false, false, true, '/'), Err(ResolveError::NotFound));
    assert_eq!(trimmed_input("\t x y \n"), "x y");
}

#[test]
fn default_path_needs_the_probe() {
    assert_eq!(detect_default_path(false), None);
    assert_eq!(
        detect_default_path(true),
        Some(
            "C:\\Program Files (x86)\\Steam\\steamapps\\common\\Backpack Battles\\BackpackBattles.pck"
                .to_string()
        )
    );
}

#[test]
fn reg_output_gives_the_data_behind_the_type() {
    let out = "\r\nHKEY_CURRENT_USER\\Software\\Valve\\Steam\r\n    SteamPath    REG_SZ    c:/program files (x86)/steam\r\n\r\n";
    assert_eq!(
        parse_reg_output(out, "SteamPath"),
        Some("c:/program files (x86)/steam".to_string())
    );
    assert_eq!(parse_reg_output(out, "InstallPath"), None);
    assert_eq!(parse_reg_output("SteamPath REG_SZ", "SteamPath"), None);
    assert_eq!(parse_reg_output("", "SteamPath"), None);
    assert_eq!(
        parse_reg_output("x\nSteamPathX  REG_SZ   a \t b\nSteamPath REG_SZ c", "SteamPath"),
        Some("a b".to_string())
    );
}

#[test]
fn trimming_and_splitting_go_by_the_marks() {
    let chars = chars_of("..ab.c.");
    let marks = vec![true, true, false, false, true, false, true];
    assert_eq!(text_of(&trim_marked(&chars, &marks)), "ab.c");
    let words: Vec<String> = split_marked(&chars, &marks).iter().map(text_of).collect();
    assert_eq!(words, vec!["ab".to_string(), "c".to_string()]);
    let all = vec![true; 7];
    assert!(trim_marked(&chars, &all).is_empty());
    assert!(split_marked(&chars, &all).is_empty());
    let none = vec![false; 7];
    assert_eq!(text_of(&trim_marked(&chars, &none)), "..ab.c.");
    assert_eq!(split_marked(&chars, &none).len(), 1);
    assert!(trim_marked(&Vec::new(), &Vec::new()).is_empty());
    assert_eq!(chars_of("h\u{e9}"), vec!['h', '\u{e9}']);
}

#[test]
fn dedup_goes_by_the_keys() {
    let items = vec!["A".to_string(), "B".to_string(), "C".to_string(), "D".to_string()];
    let keys = vec!["k1".to_string(), "k2".to_string(), "k1".to_string(), "k3".to_string()];
    assert_eq!(
        dedup_by_keys(items, &keys),
        vec!["A".to_string(), "B".to_string(), "D".to_string()]
    );
}
