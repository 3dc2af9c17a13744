use tuliprox_store::model::CategoryEntry;
use tuliprox_store::paths::{
    get_collection_path, get_relative_path_str, lock_path, get_xtream_player_api_action_url, get_xtream_stream_url_base, path_join,
    InputUserInfo,
};

#[test]
fn join_follows_path_rules() {
    assert_eq!(path_join("/data", "a.json"), "/data/a.json");
    assert_eq!(path_join("/data/", "a.json"), "/data/a.json");
    assert_eq!(path_join("", "a.json"), "a.json");
    assert_eq!(path_join("/data", "/etc/x"), "/etc/x");
    assert_eq!(path_join("/data", ""), "/data/");
    assert_eq!(
        path_join("/data", "a.json"),
        std::path::Path::new("/data").join("a.json").to_string_lossy()
    );
}

#[test]
fn collection_path_is_a_json_file() {
    assert_eq!(get_collection_path("/store/xt", "cat_live"), "/store/xt/cat_live.json");
}

#[test]
fn xtream_urls() {
    assert_eq!(
        get_xtream_stream_url_base("http://host:8080", "user", "pw"),
        "http://host:8080/player_api.php?username=user&password=pw"
    );
    let info = InputUserInfo {
        base_url: "http://h".to_string(),
        username: "u".to_string(),
        password: "p".to_string(),
    };
    assert_eq!(
        get_xtream_player_api_action_url(Some(&info), "get_live_categories"),
        Some("http://h/player_api.php?username=u&password=p&action=get_live_categories".to_string())
    );
    assert_eq!(get_xtream_player_api_action_url(None, "x"), None);
}

#[test]
fn category_entry_holds_its_fields() {
    let c = CategoryEntry { category_id: 3, category_name: "News".to_string(), parent_id: 0 };
    assert_eq!(c.clone(), c);
}

#[test]
fn relative_paths() {
    assert_eq!(get_relative_path_str("/data/strm/Movies/a.strm", "/data/strm"), "Movies/a.strm");
    assert_eq!(get_relative_path_str("/other/a.strm", "/data/strm"), "/other/a.strm");
    assert_eq!(get_relative_path_str("/data/strmx/a", "/data/strm"), "/data/strmx/a");
}

#[test]
fn lock_file_sits_hidden_beside_the_tree_file() {
    assert_eq!(lock_path("/data/xt/live.db"), "/data/xt/.live.lock");
    assert_eq!(lock_path("/data/xt/live"), "/data/xt/.live.lock");
    assert_eq!(lock_path("/"), "/");
}
