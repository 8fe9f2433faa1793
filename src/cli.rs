//! The parameters of a sweep and the `hackrf_sweep` command that runs one.
use vstd::prelude::*;
use crate::fields::{digits_of, fixed_text};
use crate::text::{push_fixed_text, push_uint_text, text_of};

verus! {

/// Radio settings and the dB range of the display; `max_db` and `min_db`
/// are in thousandths of a dB.
#[derive(Debug, Clone, Copy, PartialEq, Eq, Structural)]
pub struct SweepParams {
    /// RX VGA (baseband) gain, 0-62 dB in 2 dB steps.
    pub gain: u8,
    /// RX LNA (IF) gain, 0-40 dB in 8 dB steps.
    pub lna_gain: u8,
    /// FFT bin width in Hz, 2445-5000000.
    pub bin_width: u32,
    /// Lowest frequency in MHz.
    pub freq_min: u32,
    /// Highest frequency in MHz.
    pub freq_max: u32,
    /// RX RF amplifier: 1 enables it.
    pub amp_enable: u8,
    /// Antenna port power: 1 enables it.
    pub antenna_enable: u8,
    pub max_db: i64,
    pub min_db: i64,
}

/// The command line of a single `hackrf_sweep` run with these parameters.
pub open spec fn command_text(p: SweepParams) -> Seq<char> {
    "hackrf_sweep -1 -g"@ + text_of(digits_of(p.gain as nat)) + " -l"@ + text_of(
        digits_of(p.lna_gain as nat),
    ) + " -w "@ + text_of(digits_of(p.bin_width as nat)) + " -f "@ + text_of(
        digits_of(p.freq_min as nat),
    ) + ":"@ + text_of(digits_of(p.freq_max as nat)) + (if p.amp_enable == 1 {
        " -a1"@
    } else {
        Seq::empty()
    }) + (if p.antenna_enable == 1 {
        " -p1"@
    } else {
        Seq::empty()
    })
}

pub open spec fn uint_text(n: nat) -> Seq<char> {
    text_of(digits_of(n))
}

pub open spec fn width_estimate(p: SweepParams) -> Option<nat> {
    if p.freq_max >= p.freq_min && p.bin_width > 0 {
        Some((((p.freq_max - p.freq_min) * 1_000_000) / (p.bin_width as int)) as nat)
    } else {
        None
    }
}

/// The lines of the parameter report.
pub open spec fn report_lines(p: SweepParams) -> Seq<Seq<char>> {
    seq![
        "Sweep Parameters:"@,
        "RX gain: IF "@ + uint_text(p.lna_gain as nat) + " dB, BB "@ + uint_text(p.gain as nat)
            + " dB, RF AMP "@ + (if p.amp_enable == 1 {
            "ON (14dB)"@
        } else {
            "OFF"@
        }),
        "FFT bin width: "@ + uint_text(p.bin_width as nat),
        "Minimum frequency: "@ + uint_text(p.freq_min as nat),
        "Maximum frequency: "@ + uint_text(p.freq_max as nat),
        "Expected image width: "@ + match width_estimate(p) {
            Some(w) => "~"@ + uint_text(w),
            None => "unknown"@,
        },
        "Antenna port power: "@ + uint_text(p.antenna_enable as nat),
        "Visualization dB range: "@ + text_of(fixed_text(p.min_db as int)) + " to "@ + text_of(
            fixed_text(p.max_db as int),
        ),
    ]
}

impl SweepParams {
    /// The shell command that runs one sweep over the configured range.
    pub fn command_line(&self) -> (r: String)
        ensures
            r@ == command_text(*self),
    {
        let mut s = String::from_str("hackrf_sweep -1 -g");
        push_uint_text(&mut s, self.gain as u64);
        s.append(" -l");
        push_uint_text(&mut s, self.lna_gain as u64);
        s.append(" -w ");
        push_uint_text(&mut s, self.bin_width as u64);
        s.append(" -f ");
        push_uint_text(&mut s, self.freq_min as u64);
        s.append(":");
        push_uint_text(&mut s, self.freq_max as u64);
        if self.amp_enable == 1 {
            s.append(" -a1");
        }
        if self.antenna_enable == 1 {
            s.append(" -p1");
        }
        proof {
            if self.amp_enable != 1 {
                assert(s@ =~= s@ + Seq::<char>::empty());
            }
        }
        assert(s@ =~= command_text(*self));
        s
    }

    /// About how many readings a sweep holds: the range over the bin width.
    /// There is none for an inverted range or a zero bin width.
    pub fn expected_width(&self) -> (r: Option<u64>)
        ensures
            match r {
                Some(w) => width_estimate(*self) == Some(w as nat),
                None => width_estimate(*self) is None,
            },
    {
        if self.freq_max < self.freq_min || self.bin_width == 0 {
            return None;
        }
        let span: u64 = (self.freq_max - self.freq_min) as u64;
        assert(span * 1_000_000 <= 0xffff_ffff * 1_000_000) by (nonlinear_arith)
            requires
                span <= 0xffff_ffff,
        ;
        Some((span * 1_000_000) / (self.bin_width as u64))
    }

    /// The parameters as report lines, for the log.
    #[allow(non_snake_case)]
    pub fn PrettyPrint(&self) -> (r: Vec<String>)
        ensures
            r@.map_values(|l: String| l@) == report_lines(*self),
    {
        let mut lines: Vec<String> = Vec::new();
        lines.push(String::from_str("Sweep Parameters:"));

        let mut l = String::from_str("RX gain: IF ");
        push_uint_text(&mut l, self.lna_gain as u64);
        l.append(" dB, BB ");
        push_uint_text(&mut l, self.gain as u64);
        l.append(" dB, RF AMP ");
        if self.amp_enable == 1 {
            l.append("ON (14dB)");
        } else {
            l.append("OFF");
        }
        assert(l@ =~= report_lines(*self)[1]);
        lines.push(l);

        let mut l = String::from_str("FFT bin width: ");
        push_uint_text(&mut l, self.bin_width as u64);
        assert(l@ =~= report_lines(*self)[2]);
        lines.push(l);

        let mut l = String::from_str("Minimum frequency: ");
        push_uint_text(&mut l, self.freq_min as u64);
        assert(l@ =~= report_lines(*self)[3]);
        lines.push(l);

        let mut l = String::from_str("Maximum frequency: ");
        push_uint_text(&mut l, self.freq_max as u64);
        assert(l@ =~= report_lines(*self)[4]);
        lines.push(l);

        let mut l = String::from_str("Expected image width: ");
        match self.expected_width() {
            Some(w) => {
                l.append("~");
                push_uint_text(&mut l, w);
            },
            None => l.append("unknown"),
        }
        assert(l@ =~= report_lines(*self)[5]);
        lines.push(l);

        let mut l = String::from_str("Antenna port power: ");
        push_uint_text(&mut l, self.antenna_enable as u64);
        assert(l@ =~= report_lines(*self)[6]);
        lines.push(l);

        let mut l = String::from_str("Visualization dB range: ");
        push_fixed_text(&mut l, self.min_db);
        l.append(" to ");
        push_fixed_text(&mut l, self.max_db);
        assert(l@ =~= report_lines(*self)[7]);
        lines.push(l);

        assert(lines@.map_values(|l: String| l@) =~= report_lines(*self));
        lines
    }
}

} // verus!
