use pluginproxy_transpiler::error::Problem;
use pluginproxy_transpiler::RbxFileType;

#[test]
fn binary_extensions_select_the_binary_codec() {
    assert!(matches!(RbxFileType::from_path("plugin.rbxm"), Ok(RbxFileType::Binary)));
    assert!(matches!(RbxFileType::from_path("a/b/place.rbxl"), Ok(RbxFileType::Binary)));
}

#[test]
fn markup_extensions_select_the_markup_codec() {
    assert!(matches!(RbxFileType::from_path("plugin.rbxmx"), Ok(RbxFileType::XML)));
    assert!(matches!(RbxFileType::from_path("dir/place.rbxlx"), Ok(RbxFileType::XML)));
}

#[test]
fn unknown_extensions_are_rejected_before_any_io() {
    match RbxFileType::from_path("plugin.zip") {
        Err(Problem::InvalidExtension(p)) => assert_eq!(p, "plugin.zip"),
        _ => panic!("expected the invalid-extension error"),
    }
}

#[test]
fn a_path_without_extension_is_rejected() {
    assert!(matches!(RbxFileType::from_path("noext"), Err(Problem::InvalidExtension(_))));
}

#[test]
fn a_hidden_file_name_has_no_extension() {
    assert!(matches!(RbxFileType::from_path("dir/.rbxm"), Err(Problem::InvalidExtension(_))));
}

#[test]
fn a_dot_in_a_directory_is_not_an_extension() {
    assert!(matches!(RbxFileType::from_path("dir.rbxm/file"), Err(Problem::InvalidExtension(_))));
}

#[test]
fn extension_matching_is_case_sensitive() {
    assert!(matches!(RbxFileType::from_path("plugin.RBXM"), Err(Problem::InvalidExtension(_))));
}

#[test]
fn messages_name_the_condition() {
    assert_eq!(
        Problem::InvalidPath.message(),
        "Could not find the parent directory for file"
    );
    assert_eq!(Problem::RFDCancel.message(), "User did not choose a file");
    assert_eq!(
        Problem::NoMainSource.message(),
        "While searching through file, no source script was found"
    );
    assert_eq!(
        Problem::NoScriptSource("Tool".to_owned()).message(),
        "Couldn't find source for script 'Tool'"
    );
    assert_eq!(
        Problem::IOError("create the output file".to_owned(), "denied".to_owned()).message(),
        "While attempting to create the output file, denied"
    );
    assert_eq!(
        Problem::InvalidExtension("out.zip".to_owned()).message(),
        "File out.zip does not have the correct rbx file extension"
    );
    assert_eq!(
        Problem::BinaryDecodeError("bad header".to_owned()).message(),
        "While attempting to decode the place file, bad header"
    );
    assert_eq!(
        Problem::XMLEncodeError("bad node".to_owned()).message(),
        "While attempting to encode the place file, bad node"
    );
    assert_eq!(
        Problem::TranspilerError(vec!["line 1".to_owned(), "line 2".to_owned()]).message(),
        "While transpiling, line 1; line 2"
    );
}
