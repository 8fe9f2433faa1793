use hackrf_spectrum_analyzer::cli::SweepParams;

fn params() -> SweepParams {
    SweepParams {
        gain: 14,
        lna_gain: 32,
        bin_width: 10000,
        freq_min: 2400,
        freq_max: 2500,
        amp_enable: 0,
        antenna_enable: 0,
        max_db: -10000,
        min_db: -90000,
    }
}

#[test]
fn default_command() {
    assert_eq!(params().command_line(), "hackrf_sweep -1 -g14 -l32 -w 10000 -f 2400:2500");
}

#[test]
fn command_with_amplifier_and_antenna_power() {
    let p = SweepParams { amp_enable: 1, antenna_enable: 1, ..params() };
    assert_eq!(p.command_line(), "hackrf_sweep -1 -g14 -l32 -w 10000 -f 2400:2500 -a1 -p1");
}

#[test]
fn expected_width() {
    assert_eq!(params().expected_width(), Some(10000));
    assert_eq!(SweepParams { bin_width: 0, ..params() }.expected_width(), None);
    assert_eq!(SweepParams { freq_min: 2600, ..params() }.expected_width(), None);
}

#[test]
fn parameter_report() {
    let p = SweepParams { amp_enable: 1, ..params() };
    assert_eq!(
        p.PrettyPrint(),
        vec![
            "Sweep Parameters:",
            "RX gain: IF 32 dB, BB 14 dB, RF AMP ON (14dB)",
            "FFT bin width: 10000",
            "Minimum frequency: 2400",
            "Maximum frequency: 2500",
            "Expected image width: ~10000",
            "Antenna port power: 0",
            "Visualization dB range: -90.000 to -10.000",
        ]
    );
    let q = SweepParams { bin_width: 0, ..params() };
    assert_eq!(q.PrettyPrint()[5], "Expected image width: unknown");
}
