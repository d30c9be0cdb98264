use leshy::service::{generate_plist, generate_unit};

#[test]
fn unit_file_contains_capabilities() {
    let unit = generate_unit("leshy", "/usr/local/bin/leshy", "/etc/leshy/config.toml");
    assert!(unit.contains("CAP_NET_ADMIN"));
    assert!(unit.contains("CAP_NET_BIND_SERVICE"));
    assert!(unit.contains("/usr/local/bin/leshy /etc/leshy/config.toml"));
}

#[test]
fn custom_name_in_unit_description() {
    let unit = generate_unit("leshy-corp", "/usr/local/bin/leshy", "/etc/leshy/corp.toml");
    assert!(unit.contains("Description=leshy-corp"));
}

#[test]
fn plist_contains_binary_and_config() {
    let plist = generate_plist("leshy", "/usr/local/bin/leshy", "/etc/leshy/config.toml");
    assert!(plist.contains("<string>/usr/local/bin/leshy</string>"));
    assert!(plist.contains("<string>/etc/leshy/config.toml</string>"));
    assert!(plist.contains("com.leshy.server"));
}

#[test]
fn custom_name_in_plist_label() {
    let plist = generate_plist("leshy-corp", "/usr/local/bin/leshy", "/etc/leshy/corp.toml");
    assert!(plist.contains("com.leshy-corp.server"));
}
