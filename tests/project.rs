use rugpi_bakery::image::root_partuuid;
use rugpi_bakery::project::ProjectLoader;

#[test]
fn default_config_path() {
    let loader = ProjectLoader::new("/work/project");
    assert_eq!(loader.config_path(), "/work/project/rugpi-bakery.toml");
}

#[test]
fn relative_config_path() {
    let loader = ProjectLoader::new("/work/project").with_config_file(Some("alt/bakery.toml"));
    assert_eq!(loader.config_path(), "/work/project/alt/bakery.toml");
}

#[test]
fn absolute_config_path() {
    let loader = ProjectLoader::new("/work/project").with_config_file(Some("/etc/bakery.toml"));
    assert_eq!(loader.config_path(), "/etc/bakery.toml");
    let reset = loader.with_config_file(None);
    assert_eq!(reset.config_path(), "/work/project/rugpi-bakery.toml");
    assert_eq!(reset.project_dir(), "/work/project");
}

#[test]
fn partuuid_from_disk_id() {
    assert_eq!(root_partuuid("0x1a2b3c4d").as_deref(), Some("PARTUUID=1a2b3c4d-05"));
    assert_eq!(root_partuuid("1a2b3c4d"), None);
    assert_eq!(root_partuuid(""), None);
}

#[test]
fn config_path_in_empty_project_dir() {
    assert_eq!(ProjectLoader::new("").config_path(), "rugpi-bakery.toml");
    assert_eq!(ProjectLoader::new("proj/").config_path(), "proj/rugpi-bakery.toml");
}
