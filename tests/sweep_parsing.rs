use hackrf_spectrum_analyzer::downscale::DownscaleMode;
use hackrf_spectrum_analyzer::sweep::{AssemblyError, ParseError, Sweep, SweepLine};
use hackrf_spectrum_analyzer::text::{fixed_string, short_fixed_string};

fn line(low: u64, high: u64, width: i64, db: Vec<i64>) -> SweepLine {
    SweepLine { hz_low: low, hz_high: high, hz_bin_width: width, num_samples: db.len() as u32, db }
}

#[test]
fn two_records_make_one_sweep() {
    let text = "2024-01-01, 00:00:00.0, 0, 10, 5.0, 2, -50.0, -40.0\n2024-01-01, 00:00:00.0, 10, 20, 5.0, 2, -30.0, -20.0";
    let s = Sweep::from_hackrf_sweep_output(text).unwrap();
    assert_eq!(s.hz_low, 0);
    assert_eq!(s.hz_high, 20);
    assert_eq!(s.hz_bin_width, 5000);
    assert_eq!(s.db, vec![-50000, -40000, -30000, -20000]);
}

#[test]
fn hackrf_record_reads() {
    let l = SweepLine::from_line(
        "2024-05-31, 16:05:22.927896, 0, 5000000, 1000000.00, 20, -14.27, -26.26, -44.80, -53.68, -67.87",
    )
    .unwrap();
    assert_eq!(l.hz_low, 0);
    assert_eq!(l.hz_high, 5000000);
    assert_eq!(l.hz_bin_width, 1000000000);
    assert_eq!(l.num_samples, 20);
    assert_eq!(l.db, vec![-14270, -26260, -44800, -53680, -67870]);
}

#[test]
fn trailing_carriage_return_and_newline() {
    let text = "d, t, 100, 200, 10, 1, -1.5\r\n";
    let s = Sweep::from_hackrf_sweep_output(text).unwrap();
    assert_eq!(s.db, vec![-1500]);
    assert_eq!(s.hz_low, 100);
    assert_eq!(s.hz_high, 200);
}

#[test]
fn malformed_records_are_rejected() {
    let bad = [
        "",
        "d, t, 0, 10, 5.0",
        "d, t, x, 10, 5.0, 1, -1.0",
        "d, t, 0, 10, 5.0, 1, abc",
        "d, t, -1, 10, 5.0, 1, -1.0",
        "d, t, 0, 10, 5.0, 99999999999, -1.0",
        "d, t, 0, 10, 5.0, 1, -1.0x",
        "d, t, 0, 10, 5.0, 1, 1e3",
        "d, t, 0, 10, 5.0, 1, .",
        "d, t, 0, 10, 5.0, 1, 1.2.3",
        "d, t, 0, 18446744073709551616, 5.0, 1, 1.0",
    ];
    for b in bad.iter() {
        assert_eq!(SweepLine::from_line(b).unwrap_err(), ParseError::MalformedRecord, "{}", b);
    }
}

#[test]
fn number_forms_accepted() {
    let l = SweepLine::from_line("d,t,+7,18446744073709551615,.5,0,5.,-0.25,+3,12.345").unwrap();
    assert_eq!(l.hz_low, 7);
    assert_eq!(l.hz_high, u64::MAX);
    assert_eq!(l.hz_bin_width, 500);
    assert_eq!(l.num_samples, 0);
    assert_eq!(l.db, vec![5000, -250, 3000, 12345]);
}

#[test]
fn long_fractions_are_truncated_to_thousandths() {
    let l = SweepLine::from_line("d, t, 0, 10, 5.00049, 1, -1.0001, -50.1239, 0.0009, 3.14159265").unwrap();
    assert_eq!(l.hz_bin_width, 5000);
    assert_eq!(l.db, vec![-1000, -50123, 0, 3141]);
}

#[test]
fn record_without_readings_is_an_empty_fragment() {
    let l = SweepLine::from_line("d, t, 0, 10, 5.0, 2").unwrap();
    assert_eq!((l.hz_low, l.hz_high, l.hz_bin_width, l.num_samples), (0, 10, 5000, 2));
    assert!(l.db.is_empty());
    let s = Sweep::from_hackrf_sweep_output("d, t, 0, 10, 5.0, 2\nd, t, 10, 20, 5.0, 1, -3.5").unwrap();
    assert_eq!((s.hz_low, s.hz_high), (0, 20));
    assert_eq!(s.db, vec![-3500]);
    assert_eq!(Sweep::from_hackrf_sweep_output("d, t, 0, 10, 5.0, 2").unwrap_err(), AssemblyError::EmptyInput);
}

#[test]
fn malformed_lines_are_skipped() {
    let text = "garbage\nd, t, 0, 10, 5.0, 1, -1.0\n\nd, t, 10, 20, 5.0, 1, -2.0\n";
    let s = Sweep::from_hackrf_sweep_output(text).unwrap();
    assert_eq!(s.db, vec![-1000, -2000]);
    assert_eq!(s.hz_high, 20);
}

#[test]
fn no_records_is_empty_input() {
    assert_eq!(Sweep::from_lines(vec![]).unwrap_err(), AssemblyError::EmptyInput);
    assert_eq!(Sweep::from_hackrf_sweep_output("").unwrap_err(), AssemblyError::EmptyInput);
    assert_eq!(Sweep::from_hackrf_sweep_output("not a record").unwrap_err(), AssemblyError::EmptyInput);
}

#[test]
fn records_without_readings_are_empty_input() {
    let r = Sweep::from_lines(vec![line(0, 10, 5000, vec![])]);
    assert_eq!(r.unwrap_err(), AssemblyError::EmptyInput);
}

#[test]
fn differing_bin_widths_are_refused() {
    let r = Sweep::from_lines(vec![line(0, 10, 5000, vec![1]), line(10, 20, 6000, vec![2])]);
    assert_eq!(r.unwrap_err(), AssemblyError::InconsistentBinWidth);
}

#[test]
fn assembly_keeps_order_and_bounds() {
    let lines = vec![
        line(0, 5, 1000, vec![1, 2]),
        line(10, 15, 1000, vec![3]),
        line(5, 10, 1000, vec![4, 5, 6]),
    ];
    let s = Sweep::from_lines(lines).unwrap();
    assert_eq!(s.hz_low, 0);
    assert_eq!(s.hz_high, 10);
    assert_eq!(s.db.len(), 6);
    assert_eq!(s.db, vec![1, 2, 3, 4, 5, 6]);
}

#[test]
fn record_round_trip() {
    let inputs = [
        "2024-05-31, 16:05:22.927896, 0, 5000000, 1000000.00, 20, -14.27, -26.26, -44.80",
        "d, t, 18446744073709551615, 1, -0.001, 4294967295, 9223372036854775.807, -9223372036854775.807",
        "x,y,+3,4,5,6,0.5,-.5,7.",
        "d, t, 0, 10, 5.123456, 1, -50.1234, 0.99999",
        "d, t, 0, 10, 5.0, 0",
    ];
    for input in inputs.iter() {
        let l = SweepLine::from_line(input).unwrap();
        let text = String::from_utf8(l.to_record()).unwrap();
        let again = SweepLine::from_line(&text).unwrap();
        assert_eq!(again.hz_low, l.hz_low);
        assert_eq!(again.hz_high, l.hz_high);
        assert_eq!(again.hz_bin_width, l.hz_bin_width);
        assert_eq!(again.num_samples, l.num_samples);
        assert_eq!(again.db, l.db);
    }
}

#[test]
fn record_text_format() {
    let l = line(0, 10, 5000, vec![-50000, 250]);
    assert_eq!(String::from_utf8(l.to_record()).unwrap(), ",,0,10,5.000,2,-50.000,0.250");
}

#[test]
fn pretty_print_summary() {
    let s = Sweep { hz_low: 0, hz_high: 20, hz_bin_width: 5000, db: vec![-50000, -20000, -30500] };
    assert_eq!(
        s.pretty_print(),
        "Sweep: 0 Hz - 20 Hz, 5 Hz bin width, 3 samples, max -20 dB, min -50 dB"
    );
    let t = Sweep { hz_low: 0, hz_high: 20, hz_bin_width: 5000, db: vec![-50000, -40000, -30000, -20000] };
    assert_eq!(t.pretty_print(), "Sweep: 0 Hz - 20 Hz, 5 Hz bin width, 4 samples, max -20 dB, min -50 dB");
    let u = Sweep { hz_low: 0, hz_high: 5000000, hz_bin_width: 1000000000, db: vec![-14270, -45500, -109870] };
    assert_eq!(
        u.pretty_print(),
        "Sweep: 0 Hz - 5000000 Hz, 1000000 Hz bin width, 3 samples, max -14.27 dB, min -109.87 dB"
    );
    assert_eq!(s.max_db(), -20000);
    assert_eq!(s.min_db(), -50000);
}

#[test]
fn sweep_downscale_method() {
    let s = Sweep { hz_low: 0, hz_high: 20, hz_bin_width: 5000, db: vec![-50000, -40000, -30000, -20000] };
    assert_eq!(s.downscale(2, DownscaleMode::Peak), vec![-40000, -20000]);
}

#[test]
fn duplicate_is_equal() {
    let s = Sweep { hz_low: 1, hz_high: 2, hz_bin_width: 3, db: vec![4, 5] };
    let d = s.duplicate();
    assert_eq!((d.hz_low, d.hz_high, d.hz_bin_width, d.db), (1, 2, 3, vec![4, 5]));
}

#[test]
fn decimal_text_forms() {
    assert_eq!(short_fixed_string(5000), "5");
    assert_eq!(short_fixed_string(-20000), "-20");
    assert_eq!(short_fixed_string(-45500), "-45.5");
    assert_eq!(short_fixed_string(-14270), "-14.27");
    assert_eq!(short_fixed_string(1), "0.001");
    assert_eq!(short_fixed_string(-500), "-0.5");
    assert_eq!(short_fixed_string(0), "0");
    assert_eq!(fixed_string(-45500), "-45.500");
}
