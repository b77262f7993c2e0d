use lyric_sync::backend::extract_track_key;

#[test]
fn electron_ncm_takes_fifth_field_without_quotes() {
    assert_eq!(extract_track_key("ElectronNCM", "/org/mpris/MediaPlayer2/'12345'"), "12345");
}

#[test]
fn musicfox_uses_the_same_rule_as_electron_ncm() {
    assert_eq!(extract_track_key("musicfox", "/org/mpris/MediaPlayer2/'67'/x"), "67");
}

#[test]
fn feeluown_takes_seventh_field_verbatim() {
    assert_eq!(extract_track_key("feeluown", "/com/feeluown/app/playlist/songs/99'9"), "99'9");
}

#[test]
fn qcm_takes_third_field_without_quotes() {
    assert_eq!(extract_track_key("Qcm", "/x/'777'/rest"), "777");
}

#[test]
fn netease_gtk_takes_sixth_field_without_quotes() {
    assert_eq!(extract_track_key("NeteaseCloudMusicGtk4", "/a/b/c/d/'42'"), "42");
}

#[test]
fn unknown_player_yields_empty_key() {
    assert_eq!(extract_track_key("mpv", "/org/mpris/MediaPlayer2/'12345'"), "");
    assert_eq!(extract_track_key("", "/org/mpris/MediaPlayer2/'12345'"), "");
}

#[test]
fn track_id_with_too_few_fields_yields_empty_key() {
    assert_eq!(extract_track_key("ElectronNCM", "short"), "");
    assert_eq!(extract_track_key("feeluown", "/a/b"), "");
}

#[test]
fn quotes_are_stripped_wherever_they_appear_in_the_field() {
    assert_eq!(extract_track_key("ElectronNCM", "/a/b/c/'1'2'3'"), "123");
}
