use video_transport::network::{choose_preferred_interface, InterfaceInfo};

fn interface(name: &str, ip: [u8; 4], is_up: bool, is_running: bool) -> InterfaceInfo {
    InterfaceInfo {
        name: name.to_string(),
        ipv4: ip,
        is_up,
        is_running,
    }
}

#[test]
fn prefers_bridge0() {
    let interfaces = vec![
        interface("en0", [10, 0, 0, 5], true, true),
        interface("bridge0", [169, 254, 10, 2], true, true),
    ];

    let chosen = choose_preferred_interface(&interfaces).unwrap();
    assert_eq!(chosen.name, "bridge0");
}

#[test]
fn falls_back_to_active_interface() {
    let interfaces = vec![
        interface("en0", [10, 0, 0, 5], true, true),
        interface("en1", [192, 168, 1, 2], false, false),
    ];

    let chosen = choose_preferred_interface(&interfaces).unwrap();
    assert_eq!(chosen.name, "en0");
}

#[test]
fn prefers_link_local_on_en() {
    let interfaces = vec![
        interface("en0", [10, 0, 0, 5], true, true),
        interface("en5", [169, 254, 1, 20], true, true),
    ];

    let chosen = choose_preferred_interface(&interfaces).unwrap();
    assert_eq!(chosen.name, "en5");
}

#[test]
fn chooses_nothing_where_nothing_is_up_and_running() {
    assert_eq!(choose_preferred_interface(&[]), None);
    let interfaces = vec![
        interface("bridge0", [169, 254, 10, 2], true, false),
        interface("en0", [169, 254, 1, 1], false, true),
        interface("en1", [10, 0, 0, 1], false, false),
    ];
    assert_eq!(choose_preferred_interface(&interfaces), None);
}

#[test]
fn a_bridge_that_is_down_is_passed_over() {
    let interfaces = vec![
        interface("bridge0", [169, 254, 10, 2], false, true),
        interface("lo1", [10, 0, 0, 9], true, true),
        interface("en2", [169, 1, 2, 3], true, true),
    ];
    let chosen = choose_preferred_interface(&interfaces).unwrap();
    assert_eq!(chosen, interface("en2", [169, 1, 2, 3], true, true));
}

#[test]
fn the_first_of_equals_is_chosen() {
    let interfaces = vec![
        interface("utun0", [10, 0, 0, 1], true, true),
        interface("en3", [169, 254, 0, 3], true, true),
        interface("en4", [169, 254, 0, 4], true, true),
    ];
    assert_eq!(choose_preferred_interface(&interfaces).unwrap().name, "en3");
    let interfaces = vec![
        interface("utun0", [10, 0, 0, 1], true, true),
        interface("utun1", [10, 0, 0, 2], true, true),
    ];
    assert_eq!(choose_preferred_interface(&interfaces).unwrap().name, "utun0");
}

#[test]
fn names_are_matched_exactly() {
    let interfaces = vec![
        interface("bridge01", [10, 0, 0, 1], true, true),
        interface("e", [169, 254, 0, 2], true, true),
        interface("xen0", [169, 254, 0, 3], true, true),
        interface("en", [169, 254, 0, 4], true, true),
        interface("en0", [168, 254, 0, 5], true, true),
    ];
    assert_eq!(choose_preferred_interface(&interfaces).unwrap().name, "en");
    assert_eq!(choose_preferred_interface(&interfaces[..3]).unwrap().name, "bridge01");
}
