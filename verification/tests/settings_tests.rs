use tasker::settings::Settings;

fn settings_string() -> String {
    return "{\n\"taskbookDirectory\": \"~\",\n\"displayCompleteTasks\": true,\
            \"displayProgressOverview\": true\n}"
        .into();
}

#[test]
fn test_parse_settings() {
    let settings = Settings::new(settings_string()).unwrap();
    assert!(settings.show_completed());
    assert!(settings.show_progress());
}

#[test]
fn test_parsed_settings_matches_created() {
    let read_settings = Settings::new(settings_string()).unwrap();
    let replicated_settings = Settings::new(read_settings.serialize()).unwrap();
    assert_eq!(
        read_settings.show_progress(),
        replicated_settings.show_progress()
    );
    assert_eq!(
        read_settings.show_completed(),
        replicated_settings.show_completed()
    );
}

#[test]
fn empty_settings_text_gives_defaults() {
    let settings = Settings::new(String::new()).unwrap();
    assert!(settings.show_completed());
    assert!(settings.show_progress());
}

#[test]
fn broken_settings_text_is_refused() {
    assert!(Settings::new("{\"taskbookDirectory\": 3}".to_string()).is_err());
    assert!(Settings::new("nonsense".to_string()).is_err());
}

#[test]
fn settings_serialize_is_canonical() {
    let settings = Settings::new(settings_string()).unwrap();
    let expected = "{\n  \"taskbookDirectory\": \"~\",\n  \"displayCompleteTasks\": true,\n  \"displayProgressOverview\": true\n}";
    assert_eq!(settings.serialize(), expected);
}

#[test]
fn location_helpers_append_file_names() {
    assert_eq!(
        tasker::paths::get_settings_location("/home/u/.config/tasker"),
        "/home/u/.config/tasker/settings.json"
    );
    assert_eq!(
        tasker::paths::get_task_list_location("/base"),
        "/base/storage.json"
    );
    assert_eq!(
        tasker::paths::get_archive_location("/base"),
        "/base/archive.json"
    );
}
