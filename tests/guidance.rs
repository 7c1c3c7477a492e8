use trotter_qubo::config::Metadata;
use trotter_qubo::guidance::{choose_guidance_index, get_data, guidance_matches, pick_guidance_index};

#[test]
fn path_fields_are_read() {
    let r = get_data("./target/Gamma0.0/Strength1.0_Lattice12_12_1_Time10.json".to_string());
    assert_eq!(
        r,
        Some(("0.0".to_string(), "1.0".to_string(), "12".to_string(), "1".to_string()))
    );
    let r = get_data("out/Gamma0.25/Strength2.5_Lattice6_6_4_Time60.json".to_string());
    assert_eq!(
        r,
        Some(("0.25".to_string(), "2.5".to_string(), "6".to_string(), "4".to_string()))
    );
}

#[test]
fn malformed_paths_are_rejected() {
    assert_eq!(get_data("solutions.json".to_string()), None);
    assert_eq!(get_data("Gamma1/Strength1_Lattice3".to_string()), None);
    assert_eq!(get_data("Gamma1/Lattice3_3_1".to_string()), None);
}

#[test]
fn metadata_must_match() {
    let m = Metadata {
        strength: 10,
        layer_strength: 0,
        side_length: 6,
        height: 1,
        gamma: 0,
        time_limit_sec: 10,
    };
    assert!(guidance_matches(&m, 0, 10, 6, 1));
    assert!(!guidance_matches(&m, 0, 10, 6, 2));
    assert!(!guidance_matches(&m, 1, 10, 6, 1));
}

#[test]
fn draw_selects_index_modulo_count() {
    assert_eq!(pick_guidance_index(17, 5), 2);
    assert_eq!(pick_guidance_index(3, 5), 3);
    for _ in 0..20 {
        assert!(choose_guidance_index(7) < 7);
    }
}
