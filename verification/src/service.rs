//! Service manifest generation: the systemd unit and launchd plist texts.
//! Writing them to disk and driving the service manager happen outside the
//! library.

use vstd::prelude::*;
use vstd::string::StringExecFns;

verus! {

/// Default configuration file path for an installed service.
pub fn default_config() -> (r: String)
    ensures
        r@ == "/etc/leshy/config.toml"@,
{
    "/etc/leshy/config.toml".to_owned()
}

/// Default service name.
pub fn default_name() -> (r: String)
    ensures
        r@ == "leshy"@,
{
    "leshy".to_owned()
}

/// The systemd unit path for a service name.
pub open spec fn spec_unit_path(name: Seq<char>) -> Seq<char> {
    "/etc/systemd/system/"@ + name + ".service"@
}

pub fn unit_path(name: &str) -> (r: String)
    ensures
        r@ == spec_unit_path(name@),
{
    let mut s = "/etc/systemd/system/".to_owned();
    s.append(name);
    s.append(".service");
    s
}

/// The text of the systemd unit for a service.
pub open spec fn spec_generate_unit(name: Seq<char>, binary: Seq<char>, config: Seq<char>) -> Seq<
    char,
> {
    "[Unit]\nDescription="@ + name + " DNS-driven split-tunnel router\n"@
        + "After=network-online.target\nWants=network-online.target\n\n[Service]\nType=simple\nExecStart="@
        + binary + " "@ + config
        + "\nRestart=on-failure\nRestartSec=5\nAmbientCapabilities=CAP_NET_ADMIN CAP_NET_BIND_SERVICE\nCapabilityBoundingSet=CAP_NET_ADMIN CAP_NET_BIND_SERVICE\n\n[Install]\nWantedBy=multi-user.target\n"@
}

pub fn generate_unit(name: &str, binary: &str, config: &str) -> (r: String)
    ensures
        r@ == spec_generate_unit(name@, binary@, config@),
{
    let mut s = "[Unit]\nDescription=".to_owned();
    s.append(name);
    s.append(" DNS-driven split-tunnel router\n");
    s.append(
        "After=network-online.target\nWants=network-online.target\n\n[Service]\nType=simple\nExecStart=",
    );
    s.append(binary);
    s.append(" ");
    s.append(config);
    s.append(
        "\nRestart=on-failure\nRestartSec=5\nAmbientCapabilities=CAP_NET_ADMIN CAP_NET_BIND_SERVICE\nCapabilityBoundingSet=CAP_NET_ADMIN CAP_NET_BIND_SERVICE\n\n[Install]\nWantedBy=multi-user.target\n",
    );
    s
}

/// The launchd label for a service name.
pub open spec fn spec_plist_label(name: Seq<char>) -> Seq<char> {
    "com."@ + name + ".server"@
}

pub fn plist_label(name: &str) -> (r: String)
    ensures
        r@ == spec_plist_label(name@),
{
    let mut s = "com.".to_owned();
    s.append(name);
    s.append(".server");
    s
}

/// The launchd plist path for a service name.
pub open spec fn spec_plist_path(name: Seq<char>) -> Seq<char> {
    "/Library/LaunchDaemons/"@ + spec_plist_label(name) + ".plist"@
}

pub fn plist_path(name: &str) -> (r: String)
    ensures
        r@ == spec_plist_path(name@),
{
    let label = plist_label(name);
    let mut s = "/Library/LaunchDaemons/".to_owned();
    s.append(label.as_str());
    s.append(".plist");
    s
}

/// The text of the launchd plist for a service.
pub open spec fn spec_generate_plist(name: Seq<char>, binary: Seq<char>, config: Seq<char>) -> Seq<
    char,
> {
    "<?xml version=\"1.0\" encoding=\"UTF-8\"?>\n<!DOCTYPE plist PUBLIC \"-//Apple//DTD PLIST 1.0//EN\" \"http://www.apple.com/DTDs/PropertyList-1.0.dtd\">\n<plist version=\"1.0\">\n<dict>\n    <key>Label</key>\n    <string>"@
        + spec_plist_label(name)
        + "</string>\n    <key>ProgramArguments</key>\n    <array>\n        <string>"@ + binary
        + "</string>\n        <string>"@ + config
        + "</string>\n    </array>\n    <key>RunAtLoad</key>\n    <true/>\n    <key>KeepAlive</key>\n    <true/>\n    <key>StandardOutPath</key>\n    <string>/var/log/"@
        + name + ".log</string>\n    <key>StandardErrorPath</key>\n    <string>/var/log/"@ + name
        + ".err</string>\n</dict>\n</plist>\n"@
}

pub fn generate_plist(name: &str, binary: &str, config: &str) -> (r: String)
    ensures
        r@ == spec_generate_plist(name@, binary@, config@),
{
    let label = plist_label(name);
    let mut s =
        "<?xml version=\"1.0\" encoding=\"UTF-8\"?>\n<!DOCTYPE plist PUBLIC \"-//Apple//DTD PLIST 1.0//EN\" \"http://www.apple.com/DTDs/PropertyList-1.0.dtd\">\n<plist version=\"1.0\">\n<dict>\n    <key>Label</key>\n    <string>".to_owned();
    s.append(label.as_str());
    s.append("</string>\n    <key>ProgramArguments</key>\n    <array>\n        <string>");
    s.append(binary);
    s.append("</string>\n        <string>");
    s.append(config);
    s.append(
        "</string>\n    </array>\n    <key>RunAtLoad</key>\n    <true/>\n    <key>KeepAlive</key>\n    <true/>\n    <key>StandardOutPath</key>\n    <string>/var/log/",
    );
    s.append(name);
    s.append(".log</string>\n    <key>StandardErrorPath</key>\n    <string>/var/log/");
    s.append(name);
    s.append(".err</string>\n</dict>\n</plist>\n");
    s
}

} // verus!
