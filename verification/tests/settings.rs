use slipstream::settings::wallpaper_ids;

#[test]
fn the_wallpaper_list_from_the_environment_is_split_trimmed_and_thinned() {
    assert_eq!(wallpaper_ids("decode"), ["decode"]);
    assert_eq!(wallpaper_ids(" maze , life,,\tfrost ,"), ["maze", "life", "frost"]);
    assert!(wallpaper_ids("").is_empty());
    assert!(wallpaper_ids(" , ,").is_empty());
}
