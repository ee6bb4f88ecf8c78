use autorenamer::file_ops::{
    get_episodes, plan_file, rename_episodes, select_candidates, BatchResult,
    DirectoryScanError, FileAction, Performed, CANDIDATE_PATTERN, QUIET_BATCH,
};

fn names(list: &[&str]) -> Vec<String> {
    list.iter().map(|name| name.to_string()).collect()
}

/// Performs the renames of `actions` on a directory that is given as the list
/// of its file names, and returns what the batch amounted to.
fn perform(directory: &mut Vec<String>, base_path: &str, actions: &[FileAction]) -> BatchResult {
    let mut result = BatchResult::new();
    for action in actions {
        let outcome = match action {
            FileAction::Rename { file, old_path, new_path, .. } => {
                assert_eq!(old_path, &format!("{}/{}", base_path, file));
                let new_name = new_path[base_path.len() + 1..].to_string();
                if directory.contains(&new_name) {
                    Performed::Failed { message: format!("{} exists", new_name) }
                } else {
                    let at = directory.iter().position(|name| name == file).unwrap();
                    directory[at] = new_name;
                    Performed::Done
                }
            }
            _ => Performed::Done,
        };
        result.record(action, outcome);
    }
    result
}

#[test]
fn test_addition() {
    let test_dir = "test_addition_dir";
    let test_file = "Episode 05.mp4";
    let files = vec![test_file.to_string()];
    let mut directory = files.clone();
    let actions = rename_episodes(files, 1, test_dir.to_string(), 1, false);
    perform(&mut directory, test_dir, &actions);
    let expected_new_name = format!("{}/S01E06.mp4", test_dir);
    match &actions[0] {
        FileAction::Rename { new_path, .. } => assert_eq!(new_path, &expected_new_name),
        other => panic!("Renamed file not found: {:?}", other),
    }
    assert!(directory.contains(&"S01E06.mp4".to_string()), "Renamed file not found");
}

#[test]
fn test_subtraction() {
    let test_dir = "test_subtraction_dir";
    let test_file = "Episode 05.mp4";
    let files = vec![test_file.to_string()];
    let mut directory = files.clone();
    let actions = rename_episodes(files, 1, test_dir.to_string(), -1, false);
    perform(&mut directory, test_dir, &actions);
    let expected_new_name = format!("{}/S01E04.mp4", test_dir);
    match &actions[0] {
        FileAction::Rename { new_path, .. } => assert_eq!(new_path, &expected_new_name),
        other => panic!("Renamed file not found: {:?}", other),
    }
    assert!(directory.contains(&"S01E04.mp4".to_string()), "Renamed file not found");
}

#[test]
fn test_get_episodes_with_matching_files() {
    let directory = names(&[
        "Episode 1.mp3",
        "Episode 2.mp3",
        "Episode 69.mp3",
        "S22E73 A Massive Change.mp3",
        "Not_An_Episode.mp3",
    ]);
    let result = get_episodes(Ok(directory));
    assert!(result.is_ok());
    let matching_files = result.unwrap();
    assert_eq!(matching_files.len(), 4);
}

#[test]
fn test_episodes_with_names() {
    let temp_dir = "test_episodes_with_names";
    let mut directory = names(&[
        "Episode 1 Has a name.mp3",
        "Episode 2 Has a name also.mp3",
        "S01E03 This a name also.mp3",
        "Episode 69 NIIIICE.mp3",
        "Not_An_Episode.mp3",
    ]);
    let result = get_episodes(Ok(directory.clone()));
    match result {
        Ok(result) => {
            let actions = rename_episodes(result, 1, temp_dir.to_string(), 0, false);
            perform(&mut directory, temp_dir, &actions);
        }
        Err(err) => {
            println!("Error: {:?}", err);
        }
    }
    let matching_files = directory;
    assert!(matching_files.contains(&"S01E01 Has a name.mp3".to_string()));
    assert!(matching_files.contains(&"S01E02 Has a name also.mp3".to_string()));
    assert!(matching_files.contains(&"S01E03 This a name also.mp3".to_string()));
    assert!(matching_files.contains(&"S01E69 NIIIICE.mp3".to_string()));
}

#[test]
fn test_get_episodes_with_no_matching_files() {
    let directory = names(&["Not_An_Episode_1.mp3", "Not_An_Episode_2.mp3"]);
    let result = get_episodes(Ok(directory));
    assert!(result.is_ok());
    let matching_files = result.unwrap();
    assert!(matching_files.is_empty());
}

#[test]
fn three_episodes_among_four_files() {
    let directory =
        names(&["Episode 1.mp3", "Episode 2.mp3", "Episode 69.mp3", "Not_An_Episode.mp3"]);
    let found = get_episodes(Ok(directory)).unwrap();
    assert_eq!(found, names(&["Episode 1.mp3", "Episode 2.mp3", "Episode 69.mp3"]));
}

#[test]
fn empty_directory_has_no_candidates() {
    assert_eq!(get_episodes(Ok(Vec::new())).unwrap(), Vec::<String>::new());
}

#[test]
fn candidates_come_out_sorted() {
    let directory = names(&["b E2.mkv", "Episode 10.mkv", "a E1.mkv", "Episode 1.mkv", "E9.mkv"]);
    let found = get_episodes(Ok(directory)).unwrap();
    assert_eq!(
        found,
        names(&["E9.mkv", "Episode 1.mkv", "Episode 10.mkv", "a E1.mkv", "b E2.mkv"])
    );
}

#[test]
fn candidates_are_sorted_by_code_point() {
    let directory = names(&["\u{e9} E1.mkv", "z E1.mkv", "Z E1.mkv", "\u{1f600} E1.mkv"]);
    let found = get_episodes(Ok(directory)).unwrap();
    assert_eq!(found, names(&["Z E1.mkv", "z E1.mkv", "\u{e9} E1.mkv", "\u{1f600} E1.mkv"]));
}

#[test]
fn a_name_that_occurs_twice_is_kept_twice() {
    let found = get_episodes(Ok(names(&["E1.mkv", "x", "E1.mkv"]))).unwrap();
    assert_eq!(found, names(&["E1.mkv", "E1.mkv"]));
}

#[test]
fn candidate_needs_a_digit_after_the_marker() {
    let directory = names(&[
        "Episode 1.mkv",
        "Episode  1.mkv",
        "Episode\t1.mkv",
        "Episode.mkv",
        "E.mkv",
        "e1.mkv",
        "E1",
        "xE123456.mkv",
    ]);
    let found = get_episodes(Ok(directory)).unwrap();
    assert_eq!(found, names(&["E1", "Episode 1.mkv", "xE123456.mkv"]));
}

#[test]
fn dry_run_only_previews() {
    let files = names(&["Episode 1.mp4", "S01E02.mp4", "Not_An_Episode.mp3"]);
    let mut directory = files.clone();
    let before = directory.clone();
    let actions = rename_episodes(files, 1, "dir".to_string(), 0, true);
    assert_eq!(actions.len(), 3);
    match &actions[0] {
        FileAction::Preview { file, line } => {
            assert_eq!(file, "Episode 1.mp4");
            assert_eq!(line, "Episode 1.mp4 => S01E01.mp4");
        }
        other => panic!("unexpected: {:?}", other),
    }
    assert!(matches!(&actions[1], FileAction::Skip { file } if file == "S01E02.mp4"));
    assert!(matches!(&actions[2], FileAction::Report { file, .. } if file == "Not_An_Episode.mp3"));
    let result = perform(&mut directory, "dir", &actions);
    assert_eq!(directory, before);
    assert_eq!(result.renamed_count, 0);
    assert_eq!(result.errors.len(), 1);
}

#[test]
fn rename_carries_paths_and_line() {
    let actions =
        rename_episodes(names(&["Show Episode 7 Pilot.mkv"]), 2, "/tv/show".to_string(), 3, false);
    match &actions[0] {
        FileAction::Rename { file, old_path, new_path, line, echo } => {
            assert_eq!(file, "Show Episode 7 Pilot.mkv");
            assert_eq!(old_path, "/tv/show/Show Episode 7 Pilot.mkv");
            assert_eq!(new_path, "/tv/show/S02E10 Pilot.mkv");
            assert_eq!(line, "Show Episode 7 Pilot.mkv => S02E10 Pilot.mkv");
            assert!(*echo);
        }
        other => panic!("unexpected: {:?}", other),
    }
}

#[test]
fn a_name_that_is_no_episode_does_not_stop_the_batch() {
    let files = names(&["Not_An_Episode.mp3", "Episode 99999999999.mp4", "Episode 3.mp4"]);
    let mut directory = files.clone();
    let actions = rename_episodes(files, 1, "d".to_string(), 0, false);
    let result = perform(&mut directory, "d", &actions);
    assert_eq!(result.renamed_count, 1);
    assert_eq!(
        result.errors,
        vec![
            (
                "Not_An_Episode.mp3".to_string(),
                "no episode number found in: Not_An_Episode.mp3".to_string()
            ),
            (
                "Episode 99999999999.mp4".to_string(),
                "episode number out of range in: Episode 99999999999.mp4".to_string()
            ),
        ]
    );
    assert_eq!(directory[2], "S01E03.mp4");
}

#[test]
fn failed_rename_is_an_error_of_that_file() {
    let files = names(&["Episode 1.mp4", "Episode 01.mp4", "Episode 2.mp4"]);
    let mut directory = files.clone();
    let actions = rename_episodes(files, 1, "d".to_string(), 0, false);
    let result = perform(&mut directory, "d", &actions);
    assert_eq!(result.renamed_count, 2);
    assert_eq!(
        result.errors,
        vec![("Episode 01.mp4".to_string(), "S01E01.mp4 exists".to_string())]
    );
    assert_eq!(directory, names(&["S01E01.mp4", "Episode 01.mp4", "S01E02.mp4"]));
}

#[test]
fn record_counts_only_renames_that_were_carried_out() {
    let mut result = BatchResult::new();
    assert_eq!(result.renamed_count, 0);
    assert!(result.errors.is_empty());
    let skip = FileAction::Skip { file: "a".to_string() };
    let preview = FileAction::Preview { file: "b".to_string(), line: "b => c".to_string() };
    let rename = FileAction::Rename {
        file: "d".to_string(),
        old_path: "x/d".to_string(),
        new_path: "x/e".to_string(),
        line: "d => e".to_string(),
        echo: true,
    };
    let report = FileAction::Report { file: "f".to_string(), message: "bad".to_string() };
    result.record(&skip, Performed::Done);
    result.record(&skip, Performed::Failed { message: "ignored".to_string() });
    result.record(&preview, Performed::Done);
    assert_eq!(result.renamed_count, 0);
    assert!(result.errors.is_empty());
    result.record(&rename, Performed::Done);
    assert_eq!(result.renamed_count, 1);
    result.record(&rename, Performed::Failed { message: "denied".to_string() });
    assert_eq!(result.renamed_count, 1);
    result.record(&report, Performed::Done);
    assert_eq!(
        result.errors,
        vec![("d".to_string(), "denied".to_string()), ("f".to_string(), "bad".to_string())]
    );
}

#[test]
fn second_batch_renames_nothing() {
    let base = "season";
    let mut directory = names(&[
        "Episode 1 Has a name.mp3",
        "Episode 2.mp3",
        "S01E03 This a name also.mp3",
        "Show E4.final.mkv",
        "Episode 69 NIIIICE.mp3",
    ]);
    let first = rename_episodes(get_episodes(Ok(directory.clone())).unwrap(), 1, base.to_string(), 0, false);
    let result = perform(&mut directory, base, &first);
    assert_eq!(result.renamed_count, 4);
    assert!(result.errors.is_empty());
    let second =
        rename_episodes(get_episodes(Ok(directory.clone())).unwrap(), 1, base.to_string(), 0, false);
    assert_eq!(second.len(), 5);
    for action in &second {
        assert!(matches!(action, FileAction::Skip { .. }), "unexpected: {:?}", action);
    }
    let again = perform(&mut directory, base, &second);
    assert_eq!(again.renamed_count, 0);
    assert!(again.errors.is_empty());
}

#[test]
fn title_with_the_word_episode_is_renamed_twice() {
    let first = rename_episodes(names(&["Episode 1 Episode 2.mp4"]), 1, "d".to_string(), 0, false);
    assert!(
        matches!(&first[0], FileAction::Rename { new_path, .. } if new_path == "d/S01E01 Episode 2.mp4")
    );
    let second = rename_episodes(names(&["S01E01 Episode 2.mp4"]), 1, "d".to_string(), 0, false);
    assert!(matches!(&second[0], FileAction::Rename { new_path, .. } if new_path == "d/S01E02.mp4"));
}

#[test]
fn large_batch_is_quiet() {
    assert_eq!(QUIET_BATCH, 100);
    let many: Vec<String> = (0..100).map(|n| format!("Episode {}.mp4", n)).collect();
    let actions = rename_episodes(many, 1, "d".to_string(), 0, false);
    assert_eq!(actions.len(), 100);
    for action in &actions {
        assert!(matches!(action, FileAction::Rename { echo: false, .. }));
    }
    let fewer: Vec<String> = (0..99).map(|n| format!("Episode {}.mp4", n)).collect();
    let actions = rename_episodes(fewer, 1, "d".to_string(), 0, false);
    for action in &actions {
        assert!(matches!(action, FileAction::Rename { echo: true, .. }));
    }
    let previews: Vec<String> = (0..100).map(|n| format!("Episode {}.mp4", n)).collect();
    let actions = rename_episodes(previews, 1, "d".to_string(), 0, true);
    for action in &actions {
        assert!(matches!(action, FileAction::Preview { .. }));
    }
}

#[test]
fn digits_of_a_candidate_are_those_of_the_regex_engine() {
    assert_eq!(CANDIDATE_PATTERN, r"(Episode \d{1,5}|E\d{1,5})");
    let found = get_episodes(Ok(names(&["E\u{663}.mkv", "Episode \u{665}.mkv", "E\u{b2}.mkv"]))).unwrap();
    assert_eq!(found, names(&["Episode \u{665}.mkv", "E\u{663}.mkv"]));
    let actions = rename_episodes(found, 1, "d".to_string(), 0, false);
    for action in &actions {
        assert!(matches!(action, FileAction::Report { .. }), "unexpected: {:?}", action);
    }
}

#[test]
fn flagged_names_are_selected_and_sorted() {
    let directory = names(&["c", "a", "b", "a"]);
    assert_eq!(
        select_candidates(&directory, &vec![true, true, false, true]),
        names(&["a", "a", "c"])
    );
    assert_eq!(select_candidates(&directory, &vec![false; 4]), Vec::<String>::new());
    assert_eq!(select_candidates(&directory, &vec![true; 4]), names(&["a", "a", "b", "c"]));
    assert_eq!(select_candidates(&directory, &vec![true; 3]), Vec::<String>::new());
    assert_eq!(select_candidates(&directory, &vec![true; 5]), Vec::<String>::new());
    assert_eq!(select_candidates(&Vec::new(), &Vec::new()), Vec::<String>::new());
}

#[test]
fn one_file_is_planned_as_in_a_batch() {
    assert!(matches!(
        plan_file("Episode 2.mkv", 3, "b", 1, false, false),
        FileAction::Rename { new_path, echo: false, .. } if new_path == "b/S03E03.mkv"
    ));
    assert!(matches!(
        plan_file("Episode 2.mkv", 3, "b", 1, true, false),
        FileAction::Preview { line, .. } if line == "Episode 2.mkv => S03E03.mkv"
    ));
    assert!(matches!(plan_file("S03E02.mkv", 3, "b", 0, false, true), FileAction::Skip { .. }));
    assert!(matches!(plan_file("S03E02.mkv", 3, "b", 0, true, true), FileAction::Skip { .. }));
    assert!(matches!(
        plan_file("S03E2.mkv", 3, "b", 0, false, true),
        FileAction::Rename { new_path, .. } if new_path == "b/S03E02.mkv"
    ));
    assert!(matches!(
        plan_file("x.mkv", 3, "b", 0, true, true),
        FileAction::Report { message, .. } if message == "no episode number found in: x.mkv"
    ));
}

#[test]
fn test_get_episodes_with_invalid_directory() {
    let result = get_episodes(Err("No such file or directory (os error 2)".to_string()));
    assert!(result.is_err());
    assert_eq!(result.err().unwrap().message(), "No such file or directory (os error 2)");
}

#[test]
fn unreadable_directory_is_reported_as_such() {
    match get_episodes(Err("Permission denied (os error 13)".to_string())) {
        Err(DirectoryScanError::Unreadable { message }) => {
            assert_eq!(message, "Permission denied (os error 13)")
        }
        other => panic!("unexpected: {:?}", other),
    }
}

#[test]
fn a_later_letter_with_a_number_is_found() {
    let found = get_episodes(Ok(names(&["The Expanse E05.mp4", "Extras.mp4"]))).unwrap();
    assert_eq!(found, names(&["The Expanse E05.mp4"]));
    let actions = rename_episodes(found, 2, "d".to_string(), 0, false);
    assert!(matches!(
        &actions[0],
        FileAction::Rename { new_path, .. } if new_path == "d/S02E05.mp4"
    ));
}

#[test]
fn the_order_of_the_listing_does_not_matter() {
    let one = names(&["Episode 2.mkv", "x", "E1.mkv", "Episode 10.mkv", "E1.mkv"]);
    let other = names(&["E1.mkv", "Episode 10.mkv", "E1.mkv", "x", "Episode 2.mkv"]);
    assert_eq!(get_episodes(Ok(one)).unwrap(), get_episodes(Ok(other)).unwrap());
}

#[test]
fn a_readable_listing_is_answered() {
    assert!(get_episodes(Ok(names(&["x"]))).is_ok());
    assert!(get_episodes(Ok(names(&["Episode 1.mkv", "", "\u{1f600}"]))).is_ok());
    assert!(get_episodes(Ok(Vec::new())).is_ok());
}
