use xml_proc::systemtrayerror::SystemTrayError;

#[test]
#[allow(non_snake_case)]
fn functionNew_should_returnNewSystemtrayError() {
    let error = SystemTrayError::_new("An error occured");

    assert_eq!(error.message, "An error occured")
}

#[test]
#[allow(non_snake_case)]
fn traitDerive_should_returnWelloutput() {
    let error = SystemTrayError::_new("An error occured");

    assert_eq!(
        format!("{:?}", error),
        "SystemTrayError { message: \"An error occured\" }"
    )
}

#[test]
#[allow(non_snake_case)]
fn traitDisplay_should_returnWelloutput() {
    let error = SystemTrayError::_new("An error occured");

    assert_eq!(error.to_string(), "An error occured")
}

#[test]
fn error_keeps_empty_message() {
    let error = SystemTrayError::_new("");
    assert_eq!(error.message, "");
    assert_eq!(error.to_string(), "");
}
