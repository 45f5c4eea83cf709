use hematite_xtask::metadata::extract_workspace_root;

#[test]
fn extracts_the_root_path() {
    let out = "{\"packages\":[],\"workspace_root\":\"/home/user/ws\",\"version\":1}";
    assert_eq!(extract_workspace_root(out), Some("/home/user/ws".to_string()));
}

#[test]
fn takes_the_first_marker_and_first_terminator() {
    let out = "workspace_root\":\"first\",x workspace_root\":\"second\",";
    assert_eq!(extract_workspace_root(out), Some("first".to_string()));
}

#[test]
fn missing_marker_gives_nothing() {
    assert_eq!(extract_workspace_root("{\"packages\":[]}"), None);
    assert_eq!(extract_workspace_root(""), None);
}

#[test]
fn missing_terminator_gives_nothing() {
    assert_eq!(extract_workspace_root("workspace_root\":\"/home/user/ws"), None);
}

#[test]
fn empty_root_path() {
    assert_eq!(extract_workspace_root("workspace_root\":\"\","), Some(String::new()));
}
