use apollo::config::{RestartPolicy, UnitConfig};
use apollo::order::{resolve_start_order, OrderError};
use std::collections::HashMap;

fn unit(name: &str, after: &[&str]) -> UnitConfig {
    UnitConfig {
        name: name.to_string(),
        argv: vec!["/bin/true".to_string()],
        restart: RestartPolicy::No,
        after: after.iter().map(|a| a.to_string()).collect(),
        env: HashMap::new(),
        working_dir: None,
    }
}

fn order(units: &[UnitConfig]) -> Vec<String> {
    resolve_start_order(units).unwrap()
}

#[test]
fn no_units_no_order() {
    assert!(order(&[]).is_empty());
}

#[test]
fn units_without_dependencies_keep_their_order() {
    let units = [unit("b", &[]), unit("a", &[]), unit("c", &[])];
    assert_eq!(order(&units), ["b", "a", "c"]);
}

#[test]
fn a_unit_starts_after_those_it_lists() {
    let units = [unit("greeter", &["hello"]), unit("hello", &[]), unit("ping", &[])];
    assert_eq!(order(&units), ["hello", "ping", "greeter"]);
}

#[test]
fn the_network_units_start_as_documented() {
    let units = [
        unit("dbus", &[]),
        unit("networkmanager", &["dbus", "udev-trigger"]),
        unit("udev-trigger", &["udevd"]),
        unit("udevd", &[]),
    ];
    assert_eq!(order(&units), ["dbus", "udevd", "udev-trigger", "networkmanager"]);
}

#[test]
fn unknown_names_count_as_satisfied() {
    let units = [unit("sshd", &["network.target"])];
    assert_eq!(order(&units), ["sshd"]);
}

#[test]
fn listing_a_unit_twice_is_listing_it() {
    let units = [unit("b", &["a", "a"]), unit("a", &[])];
    assert_eq!(order(&units), ["a", "b"]);
}

#[test]
fn a_circle_has_no_order() {
    let units = [unit("a", &["b"]), unit("b", &["c"]), unit("c", &["a"]), unit("d", &[])];
    assert_eq!(resolve_start_order(&units), Err(OrderError::DependencyCycle));
}

#[test]
fn a_unit_cannot_wait_for_itself() {
    assert_eq!(resolve_start_order(&[unit("a", &["a"])]), Err(OrderError::DependencyCycle));
}

#[test]
fn a_circle_is_reported_in_words() {
    assert_eq!(
        OrderError::DependencyCycle.message(),
        "dependency cycle detected among service units (check `after` fields)"
    );
}

#[test]
fn a_diamond_is_started_from_top_to_bottom() {
    let units = [
        unit("bottom", &["left", "right"]),
        unit("left", &["top"]),
        unit("right", &["top"]),
        unit("top", &[]),
    ];
    assert_eq!(order(&units), ["top", "left", "right", "bottom"]);
}

#[test]
fn only_the_set_of_listed_units_counts() {
    let plain = [
        unit("bottom", &["left", "right"]),
        unit("left", &["top"]),
        unit("right", &["top"]),
        unit("top", &[]),
    ];
    let odd = [
        unit("bottom", &["right", "network.target", "left", "right"]),
        unit("left", &["top", "top", "top"]),
        unit("right", &["remote-fs", "top"]),
        unit("top", &["nothing"]),
    ];
    assert_eq!(order(&plain), order(&odd));
    let circle = [unit("a", &["b"]), unit("b", &["a"])];
    let odd_circle = [unit("a", &["b", "x", "b"]), unit("b", &["a", "a"])];
    assert_eq!(resolve_start_order(&circle), resolve_start_order(&odd_circle));
}
