use trotter_qubo::config::{
    apply_classical_limit, get_jxx, metadata, request_settings, ConfigError, Jxx, Metadata,
    Options, RequestSettings, TransverseField, FIXED_ONE,
};

fn options() -> Options {
    Options {
        j: None,
        gamma: None,
        l: None,
        h: None,
        t: None,
        use_random: false,
        debug_output: false,
        without_cycle: false,
        file_path: None,
        guidance_path: None,
    }
}

#[test]
fn default_parameters() {
    let j = Jxx::default();
    assert_eq!(j, Jxx { j: FIXED_ONE, jl: FIXED_ONE, l: 3, h: 3, gamma: 2000000000 });
}

#[test]
fn options_replace_parameters() {
    let mut j = Jxx::default();
    let o = Options {
        j: Some(2 * FIXED_ONE),
        gamma: Some(TransverseField { gamma: 5000000000, layer_strength: 3812532474 }),
        l: Some(6),
        h: Some(4),
        ..options()
    };
    assert_eq!(get_jxx(&mut j, &o), Ok(()));
    assert_eq!(j, Jxx { j: 2 * FIXED_ONE, jl: 3812532474, l: 6, h: 4, gamma: 5000000000 });
}

#[test]
fn zero_field_sets_zero_layer_coupling() {
    let mut j = Jxx::default();
    let o = Options { gamma: Some(TransverseField { gamma: 0, layer_strength: 99 }), ..options() };
    assert_eq!(get_jxx(&mut j, &o), Ok(()));
    assert_eq!((j.gamma, j.jl), (0, 0));
}

#[test]
fn invalid_settings_are_rejected() {
    let cases = [
        (Options { l: Some(4), ..options() }, ConfigError::InvalidLength),
        (Options { l: Some(0), ..options() }, ConfigError::InvalidLength),
        (Options { l: Some(-3), ..options() }, ConfigError::InvalidLength),
        (Options { h: Some(0), ..options() }, ConfigError::InvalidHeight),
        (
            Options { gamma: Some(TransverseField { gamma: -1, layer_strength: 0 }), ..options() },
            ConfigError::InvalidGamma,
        ),
        (Options { l: Some(30000), h: Some(1000), ..options() }, ConfigError::LatticeTooLarge),
    ];
    for (o, e) in cases {
        let mut j = Jxx::default();
        assert_eq!(get_jxx(&mut j, &o), Err(e));
        assert_eq!(j, Jxx::default());
    }
}

#[test]
fn zero_field_forces_one_layer() {
    let mut j = Jxx { j: FIXED_ONE, jl: 7, l: 3, h: 5, gamma: 0 };
    apply_classical_limit(&mut j);
    assert_eq!(j, Jxx { j: FIXED_ONE, jl: 0, l: 3, h: 1, gamma: 0 });
    let once = j;
    apply_classical_limit(&mut j);
    assert_eq!(j, once);
}

#[test]
fn one_layer_forces_zero_field() {
    let mut j = Jxx { j: FIXED_ONE, jl: 7, l: 3, h: 1, gamma: 2000000000 };
    apply_classical_limit(&mut j);
    assert_eq!(j, Jxx { j: FIXED_ONE, jl: 0, l: 3, h: 1, gamma: 0 });
}

#[test]
fn quantum_case_is_kept() {
    let mut j = Jxx::default();
    apply_classical_limit(&mut j);
    assert_eq!(j, Jxx::default());
}

#[test]
fn request_settings_check_time_limit() {
    assert_eq!(request_settings(Some(0)), Err(ConfigError::InvalidTimeLimit));
    assert_eq!(request_settings(Some(1801)), Err(ConfigError::InvalidTimeLimit));
    assert_eq!(
        request_settings(Some(10)),
        Ok(RequestSettings {
            time_limit_sec: Some(10),
            gs_level: 100,
            gs_cutoff: 100000,
            num_output_solution: 1024
        })
    );
    assert_eq!(request_settings(None).unwrap().time_limit_sec, None);
}

#[test]
fn metadata_defaults_time_limit() {
    let j = Jxx { j: FIXED_ONE, jl: 0, l: 6, h: 1, gamma: 0 };
    assert_eq!(
        metadata(&j, None),
        Metadata {
            strength: FIXED_ONE,
            layer_strength: 0,
            side_length: 6,
            height: 1,
            gamma: 0,
            time_limit_sec: 10
        }
    );
    assert_eq!(metadata(&j, Some(60)).time_limit_sec, 60);
}
