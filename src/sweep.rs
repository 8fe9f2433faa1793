//! Records of `hackrf_sweep` output and the complete sweeps assembled from them.
//!
//! A record reads `date, time, hz_low, hz_high, hz_bin_width, num_samples, dB, dB, ...`.
//! Decimal quantities are held as integers in thousandths: `hz_bin_width` in
//! thousandths of a Hz, each power reading in thousandths of a dB.
use vstd::prelude::*;
use vstd::string::StringSliceAdditionalSpecFns;
use crate::downscale::{downscale, downscaled, seq_max, seq_min, window_max, window_min, DownscaleMode};
use crate::text::{push_short_fixed_text, push_uint_text, text_of};
use crate::fields::{
    all_digits, digits_of, fixed_text, short_fixed_text, fixed_value, has_no, is_digit, is_space, join,
    lemma_fixed_round_trip, lemma_fixed_value_range, lemma_split_join, lemma_trim_unchanged,
    lemma_unsigned_round_trip, parse_fixed, parse_unsigned, push_digits, push_fixed, split_on,
    split_range, trim, trim_range, unsigned_value,
};

verus! {

pub const COMMA: u8 = 44;

pub const NEWLINE: u8 = 10;

#[derive(Debug, PartialEq, Eq, Structural, Clone, Copy)]
pub enum ParseError {
    MalformedRecord,
}

#[derive(Debug, PartialEq, Eq, Structural, Clone, Copy)]
pub enum AssemblyError {
    EmptyInput,
    InconsistentBinWidth,
}

/// One record: a part of the spectrum, `[hz_low, hz_high)`.
#[derive(Debug, Clone)]
pub struct SweepLine {
    pub hz_low: u64,
    pub hz_high: u64,
    pub hz_bin_width: i64,
    pub num_samples: u32,
    pub db: Vec<i64>,
}

pub struct LineView {
    pub hz_low: u64,
    pub hz_high: u64,
    pub hz_bin_width: i64,
    pub num_samples: u32,
    pub db: Seq<i64>,
}

impl View for SweepLine {
    type V = LineView;

    open spec fn view(&self) -> LineView {
        LineView {
            hz_low: self.hz_low,
            hz_high: self.hz_high,
            hz_bin_width: self.hz_bin_width,
            num_samples: self.num_samples,
            db: self.db@,
        }
    }
}

/// The complete spectrum of one sweep.
#[derive(Debug, Clone)]
pub struct Sweep {
    pub hz_low: u64,
    pub hz_high: u64,
    pub hz_bin_width: i64,
    pub db: Vec<i64>,
}

pub struct SweepView {
    pub hz_low: u64,
    pub hz_high: u64,
    pub hz_bin_width: i64,
    pub db: Seq<i64>,
}

impl View for Sweep {
    type V = SweepView;

    open spec fn view(&self) -> SweepView {
        SweepView {
            hz_low: self.hz_low,
            hz_high: self.hz_high,
            hz_bin_width: self.hz_bin_width,
            db: self.db@,
        }
    }
}

/// Field `k` of a record, trimmed.
pub open spec fn field(line: Seq<u8>, k: int) -> Seq<u8> {
    trim(split_on(line, COMMA)[k])
}

pub open spec fn fits_unsigned(t: Seq<u8>, limit: nat) -> bool {
    unsigned_value(t) is Some && unsigned_value(t)->0 <= limit
}

/// A record is well formed when it has at least the six leading fields and
/// each numeric field reads as a number of its type; it may hold no readings.
pub open spec fn line_ok(line: Seq<u8>) -> bool {
    let n = split_on(line, COMMA).len();
    &&& n >= 6
    &&& fits_unsigned(field(line, 2), u64::MAX as nat)
    &&& fits_unsigned(field(line, 3), u64::MAX as nat)
    &&& fixed_value(field(line, 4)) is Some
    &&& fits_unsigned(field(line, 5), u32::MAX as nat)
    &&& forall|k: int| 6 <= k < n ==> #[trigger] fixed_value(field(line, k)) is Some
}

pub open spec fn parse_line(line: Seq<u8>) -> Option<LineView> {
    if line_ok(line) {
        Some(
            LineView {
                hz_low: unsigned_value(field(line, 2))->0 as u64,
                hz_high: unsigned_value(field(line, 3))->0 as u64,
                hz_bin_width: fixed_value(field(line, 4))->0 as i64,
                num_samples: unsigned_value(field(line, 5))->0 as u32,
                db: Seq::new(
                    (split_on(line, COMMA).len() - 6) as nat,
                    |j: int| fixed_value(field(line, j + 6))->0 as i64,
                ),
            },
        )
    } else {
        None
    }
}

/// The power readings of all records, one record after the other.
pub open spec fn concat_db(lines: Seq<LineView>) -> Seq<i64>
    decreases lines.len(),
{
    if lines.len() == 0 {
        Seq::empty()
    } else {
        concat_db(lines.drop_last()) + lines.last().db
    }
}

pub open spec fn same_bin_width(lines: Seq<LineView>) -> bool {
    forall|k: int| 0 <= k < lines.len() ==> #[trigger] lines[k].hz_bin_width == lines[0].hz_bin_width
}

/// The sweep made of `lines`, taken in order.
pub open spec fn assemble(lines: Seq<LineView>) -> Result<SweepView, AssemblyError> {
    if lines.len() == 0 {
        Err(AssemblyError::EmptyInput)
    } else if !same_bin_width(lines) {
        Err(AssemblyError::InconsistentBinWidth)
    } else if concat_db(lines).len() == 0 {
        Err(AssemblyError::EmptyInput)
    } else {
        Ok(
            SweepView {
                hz_low: lines[0].hz_low,
                hz_high: lines.last().hz_high,
                hz_bin_width: lines[0].hz_bin_width,
                db: concat_db(lines),
            },
        )
    }
}

/// The well-formed records among `lines`, in order; the others are skipped.
pub open spec fn parsed_lines(lines: Seq<Seq<u8>>) -> Seq<LineView>
    decreases lines.len(),
{
    if lines.len() == 0 {
        Seq::empty()
    } else {
        let prev = parsed_lines(lines.drop_last());
        match parse_line(lines.last()) {
            Some(l) => prev.push(l),
            None => prev,
        }
    }
}

/// The sweep described by the whole output of one `hackrf_sweep` run.
pub open spec fn sweep_from_output(text: Seq<u8>) -> Result<SweepView, AssemblyError> {
    assemble(parsed_lines(split_on(text, NEWLINE)))
}

pub open spec fn views(lines: Seq<SweepLine>) -> Seq<LineView> {
    lines.map_values(|l: SweepLine| l@)
}

/// Reads the record `s[lo..hi]`.
pub fn parse_record(s: &[u8], lo: usize, hi: usize) -> (r: Result<SweepLine, ParseError>)
    requires
        lo <= hi <= s@.len(),
    ensures
        match r {
            Ok(l) => parse_line(s@.subrange(lo as int, hi as int)) == Some(l@),
            Err(e) => parse_line(s@.subrange(lo as int, hi as int)) is None && e
                == ParseError::MalformedRecord,
        },
{
    let ghost line = s@.subrange(lo as int, hi as int);
    let parts = split_range(s, lo, hi, COMMA);
    let n = parts.len();
    if n < 6 {
        return Err(ParseError::MalformedRecord);
    }
    let (a, b) = trim_range(s, parts[2].0, parts[2].1);
    let hz_low = match parse_unsigned(s, a, b, u64::MAX) {
        Some(v) => v,
        None => return Err(ParseError::MalformedRecord),
    };
    let (a, b) = trim_range(s, parts[3].0, parts[3].1);
    let hz_high = match parse_unsigned(s, a, b, u64::MAX) {
        Some(v) => v,
        None => return Err(ParseError::MalformedRecord),
    };
    let (a, b) = trim_range(s, parts[4].0, parts[4].1);
    let hz_bin_width = match parse_fixed(s, a, b) {
        Some(v) => v,
        None => return Err(ParseError::MalformedRecord),
    };
    let (a, b) = trim_range(s, parts[5].0, parts[5].1);
    let num_samples = match parse_unsigned(s, a, b, 4294967295) {
        Some(v) => v as u32,
        None => return Err(ParseError::MalformedRecord),
    };
    let mut db: Vec<i64> = Vec::new();
    let mut k: usize = 6;
    while k < n
        invariant
            6 <= k <= n,
            lo <= hi <= s@.len(),
            n == parts@.len(),
            n == split_on(line, COMMA).len(),
            line == s@.subrange(lo as int, hi as int),
            forall|i: int|
                0 <= i < parts@.len() ==> {
                    &&& lo <= (#[trigger] parts@[i]).0 <= parts@[i].1 <= hi
                    &&& s@.subrange(parts@[i].0 as int, parts@[i].1 as int) == split_on(
                        line,
                        COMMA,
                    )[i]
                },
            db@.len() == k - 6,
            forall|j: int| 6 <= j < k ==> #[trigger] fixed_value(field(line, j)) is Some,
            forall|j: int|
                0 <= j < k - 6 ==> db@[j] == fixed_value(#[trigger] field(line, j + 6))->0 as i64,
        decreases n - k,
    {
        let (a, b) = trim_range(s, parts[k].0, parts[k].1);
        match parse_fixed(s, a, b) {
            Some(v) => db.push(v),
            None => {
                assert(fixed_value(field(line, k as int)) is None);
                return Err(ParseError::MalformedRecord);
            },
        }
        k = k + 1;
    }
    let l = SweepLine { hz_low, hz_high, hz_bin_width, num_samples, db };
    assert(l@.db =~= parse_line(line)->0.db);
    Ok(l)
}

impl SweepLine {
    /// Reads one record of `hackrf_sweep` output.
    pub fn from_line(line: &str) -> (r: Result<SweepLine, ParseError>)
        ensures
            match r {
                Ok(l) => parse_line(line.spec_bytes()) == Some(l@),
                Err(e) => parse_line(line.spec_bytes()) is None && e == ParseError::MalformedRecord,
            },
    {
        let b = line.as_bytes();
        assert(b@.subrange(0, b@.len() as int) =~= b@);
        parse_record(b, 0, b.len())
    }
}


pub proof fn lemma_views_prefix(lines: Seq<SweepLine>, i: int)
    requires
        0 <= i < lines.len(),
    ensures
        views(lines.take(i + 1)) == views(lines.take(i)).push(lines[i]@),
        views(lines.take(i + 1)).drop_last() == views(lines.take(i)),
        views(lines.take(i + 1)).last() == lines[i]@,
{
    assert(views(lines.take(i + 1)) =~= views(lines.take(i)).push(lines[i]@));
    assert(views(lines.take(i + 1)).drop_last() =~= views(lines.take(i)));
}

impl Sweep {
    /// Merges the records of one sweep, in the order given: the first record's
    /// lower bound, the last record's upper bound, all readings concatenated.
    /// Every record must have the first record's bin width.
    pub fn from_lines(lines: Vec<SweepLine>) -> (r: Result<Sweep, AssemblyError>)
        ensures
            match r {
                Ok(s) => assemble(views(lines@)) == Ok::<SweepView, AssemblyError>(s@),
                Err(e) => assemble(views(lines@)) == Err::<SweepView, AssemblyError>(e),
            },
    {
        let ghost vs = views(lines@);
        if lines.len() == 0 {
            return Err(AssemblyError::EmptyInput);
        }
        let width = lines[0].hz_bin_width;
        let mut i: usize = 0;
        while i < lines.len()
            invariant
                0 <= i <= lines@.len(),
                vs == views(lines@),
                lines@.len() > 0,
                width == vs[0].hz_bin_width,
                forall|k: int| 0 <= k < i ==> #[trigger] vs[k].hz_bin_width == width,
            decreases lines@.len() - i,
        {
            if lines[i].hz_bin_width != width {
                assert(vs[i as int].hz_bin_width != vs[0].hz_bin_width);
                return Err(AssemblyError::InconsistentBinWidth);
            }
            i = i + 1;
        }
        assert(same_bin_width(vs));
        let mut db: Vec<i64> = Vec::new();
        let mut i: usize = 0;
        assert(lines@.take(0) =~= Seq::<SweepLine>::empty());
        assert(views(lines@.take(0)) =~= Seq::<LineView>::empty());
        while i < lines.len()
            invariant
                0 <= i <= lines@.len(),
                vs == views(lines@),
                db@ == concat_db(views(lines@.take(i as int))),
            decreases lines@.len() - i,
        {
            let line = &lines[i];
            let mut j: usize = 0;
            while j < line.db.len()
                invariant
                    0 <= i < lines@.len(),
                    *line == lines@[i as int],
                    0 <= j <= line.db@.len(),
                    db@ == concat_db(views(lines@.take(i as int))) + line.db@.take(j as int),
                decreases line.db@.len() - j,
            {
                db.push(line.db[j]);
                assert(line.db@.take(j + 1) =~= line.db@.take(j as int).push(line.db@[j as int]));
                j = j + 1;
            }
            proof {
                lemma_views_prefix(lines@, i as int);
                assert(line.db@.take(j as int) =~= line.db@);
            }
            i = i + 1;
        }
        assert(lines@.take(lines@.len() as int) =~= lines@);
        if db.len() == 0 {
            return Err(AssemblyError::EmptyInput);
        }
        let last = lines.len() - 1;
        Ok(
            Sweep {
                hz_low: lines[0].hz_low,
                hz_high: lines[last].hz_high,
                hz_bin_width: width,
                db,
            },
        )
    }

    /// The sweep described by the whole output of one `hackrf_sweep` run:
    /// each line is a record, malformed lines are skipped, and the others
    /// are merged in order.
    pub fn from_hackrf_sweep_output(output: &str) -> (r: Result<Sweep, AssemblyError>)
        ensures
            match r {
                Ok(s) => sweep_from_output(output.spec_bytes()) == Ok::<SweepView, AssemblyError>(
                    s@,
                ),
                Err(e) => sweep_from_output(output.spec_bytes()) == Err::<SweepView, AssemblyError>(
                    e,
                ),
            },
    {
        let b = output.as_bytes();
        let ghost text = b@;
        assert(b@.subrange(0, b@.len() as int) =~= b@);
        let bounds = split_range(b, 0, b.len(), NEWLINE);
        let ghost pieces = split_on(text, NEWLINE);
        let mut lines: Vec<SweepLine> = Vec::new();
        let mut k: usize = 0;
        assert(pieces.take(0) =~= Seq::<Seq<u8>>::empty());
        while k < bounds.len()
            invariant
                0 <= k <= bounds@.len(),
                bounds@.len() == pieces.len(),
                pieces == split_on(b@, NEWLINE),
                forall|i: int|
                    0 <= i < bounds@.len() ==> {
                        &&& 0 <= (#[trigger] bounds@[i]).0 <= bounds@[i].1 <= b@.len()
                        &&& b@.subrange(bounds@[i].0 as int, bounds@[i].1 as int) == pieces[i]
                    },
                views(lines@) == parsed_lines(pieces.take(k as int)),
            decreases bounds@.len() - k,
        {
            let ghost before = lines@;
            assert(pieces.take(k + 1).drop_last() =~= pieces.take(k as int));
            assert(pieces.take(k + 1).last() == pieces[k as int]);
            match parse_record(b, bounds[k].0, bounds[k].1) {
                Ok(l) => {
                    lines.push(l);
                    assert(views(lines@) =~= views(before).push(l@));
                },
                Err(_) => {},
            }
            k = k + 1;
        }
        assert(pieces.take(pieces.len() as int) =~= pieces);
        Sweep::from_lines(lines)
    }
}


/// The number of readings over all records.
pub open spec fn total_samples(lines: Seq<LineView>) -> nat
    decreases lines.len(),
{
    if lines.len() == 0 {
        0
    } else {
        total_samples(lines.drop_last()) + lines.last().db.len()
    }
}

proof fn lemma_concat_db_len(lines: Seq<LineView>)
    ensures
        concat_db(lines).len() == total_samples(lines),
    decreases lines.len(),
{
    if lines.len() > 0 {
        lemma_concat_db_len(lines.drop_last());
    }
}

/// Records that share one bin width and hold at least one reading make a
/// sweep: it spans from the first record's lower bound to the last record's
/// upper bound and holds as many readings as all records together.
pub proof fn lemma_assemble_shape(lines: Seq<LineView>)
    requires
        lines.len() > 0,
        same_bin_width(lines),
        total_samples(lines) > 0,
    ensures
        assemble(lines) is Ok,
        assemble(lines)->Ok_0.db.len() == total_samples(lines),
        assemble(lines)->Ok_0.hz_low == lines[0].hz_low,
        assemble(lines)->Ok_0.hz_high == lines[lines.len() - 1].hz_high,
        assemble(lines)->Ok_0.hz_bin_width == lines[0].hz_bin_width,
{
    lemma_concat_db_len(lines);
}



/// The fields of a record as `to_record` writes them: the date and time are
/// left empty, decimals get three fractional digits.
pub open spec fn record_fields(l: LineView) -> Seq<Seq<u8>> {
    seq![
        Seq::empty(),
        Seq::empty(),
        digits_of(l.hz_low as nat),
        digits_of(l.hz_high as nat),
        fixed_text(l.hz_bin_width as int),
        digits_of(l.num_samples as nat),
    ] + Seq::new(l.db.len(), |j: int| fixed_text(l.db[j] as int))
}

pub open spec fn record_text(l: LineView) -> Seq<u8> {
    join(record_fields(l), COMMA)
}

proof fn lemma_join_step(fs: Seq<Seq<u8>>, k: int, sep: u8)
    requires
        1 <= k < fs.len(),
    ensures
        join(fs.take(k + 1), sep) == join(fs.take(k), sep).push(sep) + fs[k],
{
    assert(fs.take(k + 1).drop_last() =~= fs.take(k));
}

impl SweepLine {
    /// Writes this record back in the format `from_line` reads.
    pub fn to_record(&self) -> (r: Vec<u8>)
        ensures
            r@ == record_text(self@),
    {
        let ghost fs = record_fields(self@);
        let mut out: Vec<u8> = Vec::new();
        assert(fs.take(1) =~= seq![Seq::<u8>::empty()]);
        assert(out@ =~= join(fs.take(1), COMMA));
        out.push(COMMA);
        proof {
            lemma_join_step(fs, 1, COMMA);
        }
        assert(out@ =~= join(fs.take(2), COMMA));
        out.push(COMMA);
        push_digits(&mut out, self.hz_low);
        proof {
            lemma_join_step(fs, 2, COMMA);
        }
        assert(out@ =~= join(fs.take(3), COMMA));
        out.push(COMMA);
        push_digits(&mut out, self.hz_high);
        proof {
            lemma_join_step(fs, 3, COMMA);
        }
        assert(out@ =~= join(fs.take(4), COMMA));
        out.push(COMMA);
        push_fixed(&mut out, self.hz_bin_width);
        proof {
            lemma_join_step(fs, 4, COMMA);
        }
        assert(out@ =~= join(fs.take(5), COMMA));
        out.push(COMMA);
        push_digits(&mut out, self.num_samples as u64);
        proof {
            lemma_join_step(fs, 5, COMMA);
        }
        assert(out@ =~= join(fs.take(6), COMMA));
        let mut j: usize = 0;
        while j < self.db.len()
            invariant
                j <= self.db@.len(),
                fs == record_fields(self@),
                fs.len() == 6 + self.db@.len(),
                out@ == join(fs.take(6 + j), COMMA),
            decreases self.db@.len() - j,
        {
            out.push(COMMA);
            push_fixed(&mut out, self.db[j]);
            proof {
                lemma_join_step(fs, 6 + j, COMMA);
            }
            assert(out@ =~= join(fs.take(6 + j + 1), COMMA));
            j = j + 1;
        }
        assert(fs.take(6 + j) =~= fs);
        out
    }
}

proof fn lemma_digits_field(n: nat)
    ensures
        unsigned_value(digits_of(n)) == Some(n),
        has_no(digits_of(n), COMMA),
        trim(digits_of(n)) == digits_of(n),
{
    lemma_unsigned_round_trip(n);
    let d = digits_of(n);
    assert(all_digits(d));
    assert(has_no(d, COMMA)) by {
        assert forall|i: int| 0 <= i < d.len() implies d[i] != COMMA by {
            assert(is_digit(d[i]));
        }
    }
    assert(!is_space(d[0]) && !is_space(d.last()));
    lemma_trim_unchanged(d);
}

proof fn lemma_fixed_field(v: int)
    requires
        -i64::MAX <= v <= i64::MAX,
    ensures
        fixed_value(fixed_text(v)) == Some(v),
        has_no(fixed_text(v), COMMA),
        trim(fixed_text(v)) == fixed_text(v),
{
    lemma_fixed_round_trip(v);
    let t = fixed_text(v);
    assert(!is_space(t.last()));
    lemma_trim_unchanged(t);
}

/// Reading a well-formed record, writing it back and reading that again
/// gives the same record: every numeric field survives exactly.
pub proof fn lemma_record_round_trip(line: Seq<u8>)
    requires
        parse_line(line) is Some,
    ensures
        parse_line(record_text(parse_line(line)->0)) == parse_line(line),
{
    let l = parse_line(line)->0;
    let fs = record_fields(l);
    let text = record_text(l);
    let n = split_on(line, COMMA).len();
    assert(l.db.len() == n - 6);
    lemma_fixed_value_range(field(line, 4));
    lemma_digits_field(l.hz_low as nat);
    lemma_digits_field(l.hz_high as nat);
    lemma_digits_field(l.num_samples as nat);
    lemma_fixed_field(l.hz_bin_width as int);
    assert forall|j: int| 0 <= j < l.db.len() implies {
        &&& fixed_value(#[trigger] fixed_text(l.db[j] as int)) == Some(l.db[j] as int)
        &&& has_no(fixed_text(l.db[j] as int), COMMA)
        &&& trim(fixed_text(l.db[j] as int)) == fixed_text(l.db[j] as int)
    } by {
        assert(fixed_value(field(line, j + 6)) is Some);
        lemma_fixed_value_range(field(line, j + 6));
        lemma_fixed_field(l.db[j] as int);
    }
    assert(trim(Seq::<u8>::empty()) == Seq::<u8>::empty());
    assert forall|k: int| 0 <= k < fs.len() implies has_no(#[trigger] fs[k], COMMA) by {
        if k >= 6 {
            assert(fs[k] == fixed_text(l.db[k - 6] as int));
        }
    }
    lemma_split_join(fs, COMMA);
    assert(split_on(text, COMMA) == fs);
    assert forall|k: int| 0 <= k < fs.len() implies #[trigger] field(text, k) == fs[k] by {
        if k >= 6 {
            assert(fs[k] == fixed_text(l.db[k - 6] as int));
        }
    }
    assert forall|k: int| 6 <= k < fs.len() implies #[trigger] fixed_value(field(text, k)) is Some by {
        assert(field(text, k) == fs[k]);
        assert(fs[k] == fixed_text(l.db[k - 6] as int));
    }
    assert(line_ok(text));
    let l2 = parse_line(text)->0;
    assert forall|j: int| 0 <= j < l.db.len() implies l2.db[j] == l.db[j] by {
        assert(field(text, j + 6) == fs[j + 6]);
        assert(fs[j + 6] == fixed_text(l.db[j] as int));
    }
    assert(l2.db =~= l.db);
}


/// The one-line summary that `pretty_print` writes.
pub open spec fn summary_text(w: SweepView) -> Seq<char> {
    "Sweep: "@ + text_of(digits_of(w.hz_low as nat)) + " Hz - "@ + text_of(digits_of(w.hz_high as nat))
        + " Hz, "@ + text_of(short_fixed_text(w.hz_bin_width as int)) + " Hz bin width, "@
        + text_of(digits_of(w.db.len())) + " samples, max "@ + text_of(
        short_fixed_text(seq_max(w.db) as int),
    ) + " dB, min "@ + text_of(short_fixed_text(seq_min(w.db) as int)) + " dB"@
}

impl Sweep {
    /// A copy of this sweep.
    pub fn duplicate(&self) -> (r: Sweep)
        ensures
            r@ == self@,
    {
        let db = self.db.clone();
        assert(db@ =~= self.db@);
        Sweep { hz_low: self.hz_low, hz_high: self.hz_high, hz_bin_width: self.hz_bin_width, db }
    }

    /// The strongest reading.
    pub fn max_db(&self) -> (r: i64)
        requires
            self.db@.len() > 0,
        ensures
            r == seq_max(self.db@),
    {
        assert(self.db@.subrange(0, self.db@.len() as int) =~= self.db@);
        window_max(&self.db, 0, self.db.len())
    }

    /// The weakest reading.
    pub fn min_db(&self) -> (r: i64)
        requires
            self.db@.len() > 0,
        ensures
            r == seq_min(self.db@),
    {
        assert(self.db@.subrange(0, self.db@.len() as int) =~= self.db@);
        window_min(&self.db, 0, self.db.len())
    }

    /// The readings reduced to `width` values.
    pub fn downscale(&self, width: usize, mode: DownscaleMode) -> (r: Vec<i64>)
        ensures
            r@ == downscaled(self.db@, width as nat, mode),
    {
        downscale(&self.db, width, mode)
    }

    /// A one-line summary: the range, the bin width, the number of readings
    /// and the strongest and weakest of them.
    pub fn pretty_print(&self) -> (r: String)
        requires
            self.db@.len() > 0,
        ensures
            r@ == summary_text(self@),
    {
        let mut s = String::from_str("Sweep: ");
        push_uint_text(&mut s, self.hz_low);
        s.append(" Hz - ");
        push_uint_text(&mut s, self.hz_high);
        s.append(" Hz, ");
        push_short_fixed_text(&mut s, self.hz_bin_width);
        s.append(" Hz bin width, ");
        push_uint_text(&mut s, self.db.len() as u64);
        s.append(" samples, max ");
        push_short_fixed_text(&mut s, self.max_db());
        s.append(" dB, min ");
        push_short_fixed_text(&mut s, self.min_db());
        s.append(" dB");
        s
    }
}

} // verus!
