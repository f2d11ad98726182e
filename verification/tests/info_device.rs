use skyup::device::get_skytraxx_device;
use skyup::device::volume_name_matches;
use skyup::device::is_main_volume_path;
use skyup::device::strip_build;
use skyup::info::parse_lines;

#[test]
fn test_parse_lines() {
    let file_content = "hw=\"Skytraxx 3.0\"\nsw=\"3.0.0\"";
    let dict = parse_lines(file_content);

    assert_eq!(dict.get("hw").unwrap(), "Skytraxx 3.0");
    assert_eq!(dict.get("sw").unwrap(), "3.0.0");
}

#[test]
fn parse_lines_ignores_malformed_lines() {
    let dict = parse_lines("noequals\na=1\nb=c=d\n\nlast=\"x\"");
    assert_eq!(dict.get("a").unwrap(), "1");
    assert_eq!(dict.get("last").unwrap(), "x");
    assert!(dict.get("noequals").is_none());
    assert!(dict.get("b").is_none());
}

#[test]
fn parse_lines_later_key_wins() {
    let dict = parse_lines("k=\"1\"\nk=\"2\"");
    assert_eq!(dict.get("k").unwrap(), "2");
}

#[test]
fn parse_lines_strips_quotes_and_cr() {
    let dict = parse_lines("hw=\"Sky\"traxx\"\r\nsw=42\r\n");
    assert_eq!(dict.get("hw").unwrap(), "Skytraxx");
    assert_eq!(dict.get("sw").unwrap(), "42");
}

#[test]
fn device_info_from_dict() {
    let dict = parse_lines("hw=\"Skytraxx 5mini\"\nsw=\"build-12345\"");
    let di = get_skytraxx_device(&dict).unwrap();
    assert_eq!(di.device_name, "Skytraxx 5mini");
    assert_eq!(di.software_version, "12345");
}

#[test]
fn device_info_missing_keys() {
    let dict = parse_lines("sw=\"1\"");
    assert_eq!(get_skytraxx_device(&dict).unwrap_err(), "device_name not found");
    let dict = parse_lines("hw=\"x\"");
    assert_eq!(get_skytraxx_device(&dict).unwrap_err(), "software_version not found");
}

#[test]
fn strip_build_removes_every_occurrence() {
    assert_eq!(strip_build("build-123"), "123");
    assert_eq!(strip_build("build-build-9"), "9");
    assert_eq!(strip_build("no-prefix"), "no-prefix");
    assert_eq!(strip_build(""), "");
    assert_eq!(strip_build("xbuild-1"), "x1");
}

#[test]
fn volume_names_match_up_to_ascii_case() {
    assert!(volume_name_matches("SKYTRAXX", "Skytraxx"));
    assert!(volume_name_matches("skytraxx", "Skytraxx"));
    assert!(!volume_name_matches("Skytraxx 3", "Skytraxx"));
    assert!(!volume_name_matches("Skytrax!", "Skytraxx"));
}

#[test]
fn main_volume_detection() {
    assert!(is_main_volume_path("/Applications/SkyUp.app"));
    assert!(!is_main_volume_path("/Volumes/Skytraxx/app"));
    assert!(!is_main_volume_path("/Volumes"));
    assert!(is_main_volume_path("/VolumesX/y"));
}
