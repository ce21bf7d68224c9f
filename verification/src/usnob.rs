//! USNO-B catalog record decoder.
//!
//! A catalog file is a plain stream of 80-byte records, each holding twenty
//! unsigned 32-bit words in little-endian order. Most fields are base-10
//! digit-packed: several decimal fields share one word and are recovered by
//! successive modulo and division by powers of ten. All angular quantities
//! stay in exactly scaled integer units; the scale of every field is given on
//! its declaration.

use vstd::arithmetic::div_mod::lemma_div_denominator;
use vstd::prelude::*;
use vstd::slice::slice_subrange;
use vstd::string::StringExecFns;

use crate::error::AstroError;

verus! {

/// Size in bytes of one catalog record.
pub const USNOB_RECORD_SIZE: usize = 80;

/// Ten to the k-th power.
pub open spec fn pow10(k: nat) -> int
    decreases k,
{
    if k == 0 {
        1
    } else {
        10 * pow10((k - 1) as nat)
    }
}

pub proof fn lemma_pow10_pos(k: nat)
    ensures
        pow10(k) >= 1,
    decreases k,
{
    if k > 0 {
        lemma_pow10_pos((k - 1) as nat);
    }
}

pub proof fn lemma_pow10_monotonic(a: nat, b: nat)
    requires
        a <= b,
    ensures
        pow10(a) <= pow10(b),
    decreases b,
{
    if a < b {
        lemma_pow10_monotonic(a, (b - 1) as nat);
        lemma_pow10_pos((b - 1) as nat);
    }
}

/// pow10 turns addition of exponents into multiplication.
pub proof fn lemma_pow10_adds(a: nat, b: nat)
    ensures
        pow10(a + b) == pow10(a) * pow10(b),
    decreases a,
{
    if a == 0 {
    } else {
        lemma_pow10_adds((a - 1) as nat, b);
        assert(pow10((a - 1) as nat + b + 1) == 10 * pow10((a - 1) as nat + b));
        assert(10 * (pow10((a - 1) as nat) * pow10(b)) == (10 * pow10((a - 1) as nat)) * pow10(b))
            by (nonlinear_arith);
    }
}

/// Ten to the k-th power, executable. Digit-group widths in this format
/// never exceed nine, so the result always fits in a u32.
pub fn pow10_u32(k: usize) -> (r: u32)
    requires
        k <= 9,
    ensures
        r == pow10(k as nat),
{
    let mut r: u32 = 1;
    let mut i: usize = 0;
    while i < k
        invariant
            i <= k,
            k <= 9,
            r == pow10(i as nat),
        decreases k - i,
    {
        proof {
            lemma_pow10_monotonic(i as nat, 8);
            reveal_with_fuel(pow10, 9);
            assert(pow10(8) == 100000000);
        }
        r = r * 10;
        i = i + 1;
    }
    r
}

/// Sum of the first i digit-group widths: the number of low-order decimal
/// digits consumed before group i starts.
pub open spec fn chunk_offset(chunks: Seq<usize>, i: int) -> int
    decreases i,
{
    if i <= 0 {
        0
    } else {
        chunk_offset(chunks, i - 1) + chunks[i - 1]
    }
}

pub proof fn lemma_chunk_offset_nonneg(chunks: Seq<usize>, i: int)
    ensures
        chunk_offset(chunks, i) >= 0,
    decreases i,
{
    if i > 0 {
        lemma_chunk_offset_nonneg(chunks, i - 1);
    }
}

/// The value of the i-th digit group of n: skip the groups before it, then
/// keep as many low-order decimal digits as the group is wide.
pub open spec fn chunk_value(n: int, chunks: Seq<usize>, i: int) -> int {
    (n / pow10(chunk_offset(chunks, i) as nat)) % pow10(chunks[i] as nat)
}

/// Every digit group is nonnegative and below ten to its width.
pub proof fn lemma_chunk_value_bound(n: int, chunks: Seq<usize>, i: int)
    requires
        n >= 0,
        0 <= i < chunks.len(),
    ensures
        0 <= chunk_value(n, chunks, i) < pow10(chunks[i] as nat),
{
    lemma_chunk_offset_nonneg(chunks, i);
    lemma_pow10_pos(chunk_offset(chunks, i) as nat);
    lemma_pow10_pos(chunks[i] as nat);
}

/// Splits n into consecutive low-order decimal digit groups of the given
/// widths; high-order digits beyond the groups are discarded.
pub fn extract_digit_chunks(n: u32, chunks: &[usize]) -> (nums: Vec<u32>)
    requires
        forall|i: int| 0 <= i < chunks@.len() ==> chunks@[i] <= 9,
    ensures
        nums@.len() == chunks@.len(),
        forall|i: int| 0 <= i < chunks@.len() ==> nums@[i] == chunk_value(n as int, chunks@, i),
{
    let mut nums: Vec<u32> = Vec::new();
    let mut rem: u32 = n;
    let mut idx: usize = 0;
    while idx < chunks.len()
        invariant
            idx <= chunks@.len(),
            nums@.len() == idx,
            forall|i: int| 0 <= i < chunks@.len() ==> chunks@[i] <= 9,
            rem == n as int / pow10(chunk_offset(chunks@, idx as int) as nat),
            forall|i: int| 0 <= i < idx ==> nums@[i] == chunk_value(n as int, chunks@, i),
        decreases chunks@.len() - idx,
    {
        let ghost off = chunk_offset(chunks@, idx as int) as nat;
        let ghost w = chunks@[idx as int] as nat;
        proof {
            lemma_chunk_offset_nonneg(chunks@, idx as int);
            lemma_pow10_pos(off);
            lemma_pow10_pos(w);
        }
        let p = pow10_u32(chunks[idx]);
        nums.push(rem % p);
        rem = rem / p;
        proof {
            lemma_div_denominator(n as int, pow10(off), pow10(w));
            lemma_pow10_adds(off, w);
            assert(chunk_offset(chunks@, idx + 1) == off + w);
        }
        idx = idx + 1;
    }
    nums
}

/// Word k of a record, read as little-endian (the byte order in which the
/// catalog files are produced on all supported machines).
pub open spec fn word_at(b: Seq<u8>, k: int) -> int {
    b[4 * k] + 0x100 * b[4 * k + 1] + 0x10000 * b[4 * k + 2] + 0x1000000 * b[4 * k + 3]
}

/// Reads 32-bit word k of the buffer in little-endian order.
pub fn read_word(b: &[u8], k: usize) -> (w: u32)
    requires
        4 * k + 4 <= b@.len(),
    ensures
        w == word_at(b@, k as int),
{
    let n = b.len();
    assert(4 * k + 4 <= n);
    let b0 = b[4 * k];
    let b1 = b[4 * k + 1];
    let b2 = b[4 * k + 2];
    let b3 = b[4 * k + 3];
    b0 as u32 + (b1 as u32) * 0x100 + (b2 as u32) * 0x10000 + (b3 as u32) * 0x1000000
}

/// Reinterprets the full word range of a buffer as little-endian 32-bit
/// words. Fails when the byte length is not exactly four times the word
/// count, as the original layout demands.
pub fn u8_to_u32_slice(src: &[u8], dst: &mut Vec<u32>) -> (r: Result<(), AstroError>)
    ensures
        r is Ok <==> src@.len() == 4 * old(dst)@.len(),
        r is Ok ==> final(dst)@.len() == old(dst)@.len() && forall|i: int|
            0 <= i < final(dst)@.len() ==> final(dst)@[i] == word_at(src@, i),
        r is Err ==> final(dst)@ == old(dst)@,
{
    let ns = src.len();
    let nd = dst.len();
    if nd > usize::MAX / 4 {
        assert(4 * nd > usize::MAX);
        return Err(AstroError::new("Buffer lengths do not match"));
    }
    if ns != nd * 4 {
        return Err(AstroError::new("Buffer lengths do not match"));
    }
    let n = dst.len();
    let mut i: usize = 0;
    while i < n
        invariant
            i <= n,
            n == dst@.len(),
            src@.len() == 4 * n,
            forall|j: int| 0 <= j < i ==> dst@[j] == word_at(src@, j),
        decreases n - i,
    {
        let w = read_word(src, i);
        dst.set(i, w);
        i = i + 1;
    }
    Ok(())
}

/// The character for one decimal digit; values outside 0..=9 still map to a
/// digit character so that every rendered character is a digit.
pub open spec fn dec_digit(d: int) -> char {
    if d == 0 {
        '0'
    } else if d == 1 {
        '1'
    } else if d == 2 {
        '2'
    } else if d == 3 {
        '3'
    } else if d == 4 {
        '4'
    } else if d == 5 {
        '5'
    } else if d == 6 {
        '6'
    } else if d == 7 {
        '7'
    } else if d == 8 {
        '8'
    } else {
        '9'
    }
}

pub open spec fn is_dec_digit(c: char) -> bool {
    c == '0' || c == '1' || c == '2' || c == '3' || c == '4' || c == '5' || c == '6' || c == '7'
        || c == '8' || c == '9'
}

/// v rendered in decimal, zero-padded to exactly `width` digits; digits above
/// the width are discarded.
pub open spec fn decimal_chars(v: int, width: nat) -> Seq<char> {
    Seq::new(width, |j: int| dec_digit(v / pow10((width - 1 - j) as nat) % 10))
}

fn digit_str(d: u32) -> (r: &'static str)
    requires
        d <= 9,
    ensures
        r@ =~= seq![dec_digit(d as int)],
{
    let r: &'static str = match d {
        0 => "0",
        1 => "1",
        2 => "2",
        3 => "3",
        4 => "4",
        5 => "5",
        6 => "6",
        7 => "7",
        8 => "8",
        _ => "9",
    };
    proof {
        reveal_strlit("0");
        reveal_strlit("1");
        reveal_strlit("2");
        reveal_strlit("3");
        reveal_strlit("4");
        reveal_strlit("5");
        reveal_strlit("6");
        reveal_strlit("7");
        reveal_strlit("8");
        reveal_strlit("9");
    }
    r
}

/// Appends v in decimal, zero-padded to exactly `width` digits.
fn push_decimal(s: &mut String, v: u32, width: usize)
    requires
        width <= 9,
    ensures
        final(s)@ == old(s)@ + decimal_chars(v as int, width as nat),
{
    let ghost target = decimal_chars(v as int, width as nat);
    let mut j: usize = 0;
    while j < width
        invariant
            j <= width,
            width <= 9,
            target == decimal_chars(v as int, width as nat),
            s@ == old(s)@ + target.take(j as int),
        decreases width - j,
    {
        let p = pow10_u32(width - 1 - j);
        proof {
            lemma_pow10_pos((width - 1 - j) as nat);
        }
        let d = (v / p) % 10;
        s.append(digit_str(d));
        proof {
            assert(target.take(j + 1) =~= target.take(j as int) + seq![target[j as int]]);
        }
        j = j + 1;
    }
    proof {
        assert(target.take(width as int) =~= target);
    }
}

/// v rendered in decimal with no padding (at least one digit).
pub open spec fn udec_chars(v: int) -> Seq<char>
    decreases v,
{
    if v < 10 {
        seq![dec_digit(v % 10)]
    } else {
        udec_chars(v / 10) + seq![dec_digit(v % 10)]
    }
}

/// Appends v in plain decimal.
pub fn push_udec(s: &mut String, v: u32)
    ensures
        final(s)@ == old(s)@ + udec_chars(v as int),
    decreases v,
{
    if v >= 10 {
        push_udec(s, v / 10);
    }
    s.append(digit_str(v % 10));
    proof {
        if v < 10 {
            assert(s@ =~= old(s)@ + udec_chars(v as int));
        } else {
            assert(s@ =~= old(s)@ + udec_chars(v as int));
        }
    }
}

/// The identifier text: four zone digits, a dash, seven record digits.
pub open spec fn usnob_id_chars(zone: int, record: int) -> Seq<char> {
    decimal_chars(zone, 4) + seq!['-'] + decimal_chars(record, 7)
}

/// Law: an identifier always has the shape `DDDD-DDDDDDD` (twelve characters,
/// a dash after the zone, a decimal digit everywhere else).
pub proof fn lemma_usnob_id_shape(zone: int, record: int)
    ensures
        usnob_id_chars(zone, record).len() == 12,
        usnob_id_chars(zone, record)[4] == '-',
        forall|i: int|
            0 <= i < 12 && i != 4 ==> is_dec_digit(#[trigger] usnob_id_chars(zone, record)[i]),
{
    assert forall|i: int| 0 <= i < 12 && i != 4 implies is_dec_digit(
        #[trigger] usnob_id_chars(zone, record)[i],
    ) by {
        if i < 4 {
            assert(usnob_id_chars(zone, record)[i] == decimal_chars(zone, 4)[i]);
        } else {
            assert(usnob_id_chars(zone, record)[i] == decimal_chars(record, 7)[i - 5]);
        }
    }
}

fn format_usnob_id(zone: u32, record: usize) -> (s: String)
    requires
        zone <= 9999,
        record <= 9_999_999,
    ensures
        s@ == usnob_id_chars(zone as int, record as int),
{
    let mut s = String::new();
    push_decimal(&mut s, zone, 4);
    s.append("-");
    push_decimal(&mut s, record as u32, 7);
    proof {
        reveal_strlit("-");
        assert(s@ =~= usnob_id_chars(zone as int, record as int));
    }
    s
}

/// One per-band measurement. Scaled integer units:
/// magnitude in hundredths of a magnitude, residuals in hundredths of an
/// arcsecond.
#[derive(Debug)]
pub struct Observation {
    /// Apparent magnitude in centi-magnitudes (0..=9999).
    pub mag_cmag: u32,
    /// Field number in the original survey; never zero (zero marks an
    /// absent slot, and then no Observation exists).
    pub field: i16,
    /// The original survey code.
    pub survey: u32,
    /// Star/galaxy estimate: 0 galaxy, 11 star, 19 no value; stray values
    /// occur in real files.
    pub star_galaxy: u8,
    /// Fit residual along RA in hundredths of an arcsecond.
    pub xi_resid_cas: u32,
    /// Fit residual along Dec in hundredths of an arcsecond.
    pub eta_resid_cas: u32,
    /// Source of the photometric calibration.
    pub calibration: u8,
    /// Back-pointer into the PMM scan file.
    pub pmmscan: i32,
}

/// The five band/epoch slots of a record; a slot is None when its field
/// number is zero.
#[derive(Debug)]
pub struct Observations {
    pub blue1: Option<Observation>,
    pub red1: Option<Observation>,
    pub blue2: Option<Observation>,
    pub red2: Option<Observation>,
    pub infrared: Option<Observation>,
}

/// One decoded catalog entry. Angular units are exact integers:
/// `_cas` is hundredths of an arcsecond, `_mas` thousandths, `_das` tenths.
/// Degrees are obtained by dividing arcseconds by 3600; right ascension is
/// `ra_cas / 360000` degrees and declination `dec_cas / 360000 - 90`.
#[derive(Debug)]
pub struct USNOBObject {
    /// Identifier `ZZZZ-NNNNNNN`: declination zone and 1-based record number.
    pub usnob_id: String,
    /// Right ascension in centi-arcseconds; below 129_600_000 (360 degrees).
    pub ra_cas: u32,
    /// Declination plus 90 degrees, in centi-arcseconds; at most 64_800_000.
    pub dec_cas: u32,
    /// Uncertainty in RA, milli-arcseconds.
    pub sigma_ra_mas: u16,
    /// Uncertainty in Dec, milli-arcseconds.
    pub sigma_dec_mas: u16,
    /// Fit uncertainty in RA, deci-arcseconds.
    pub sigma_ra_fit_das: u8,
    /// Fit uncertainty in Dec, deci-arcseconds.
    pub sigma_dec_fit_das: u8,
    /// Proper motion in RA, milli-arcseconds per year (raw digits recentered:
    /// two times raw minus 10000).
    pub pm_ra_mas_yr: i16,
    /// Proper motion in Dec, milli-arcseconds per year.
    pub pm_dec_mas_yr: i16,
    /// Uncertainty of pm_ra, milli-arcseconds per year.
    pub sigma_pm_ra_mas_yr: u16,
    /// Uncertainty of pm_dec, milli-arcseconds per year.
    pub sigma_pm_dec_mas_yr: u16,
    /// Motion probability in tenths (0..=9).
    pub pm_prob_tenths: u8,
    /// Epoch year minus 1950, in tenths of a year.
    pub epoch_tenths: u16,
    /// Number of detections.
    pub n_detections: u8,
    pub diffraction_spike: bool,
    pub motion_catalog: bool,
    pub ys4: bool,
    pub observations: Observations,
}

/// Ghost model of an observation.
pub struct ObsModel {
    pub mag_cmag: int,
    pub field: int,
    pub survey: int,
    pub star_galaxy: int,
    pub xi_resid_cas: int,
    pub eta_resid_cas: int,
    pub calibration: int,
    pub pmmscan: int,
}

/// Ghost model of a decoded entry.
pub struct StarModel {
    pub usnob_id: Seq<char>,
    pub ra_cas: int,
    pub dec_cas: int,
    pub sigma_ra_mas: int,
    pub sigma_dec_mas: int,
    pub sigma_ra_fit_das: int,
    pub sigma_dec_fit_das: int,
    pub pm_ra_mas_yr: int,
    pub pm_dec_mas_yr: int,
    pub sigma_pm_ra_mas_yr: int,
    pub sigma_pm_dec_mas_yr: int,
    pub pm_prob_tenths: int,
    pub epoch_tenths: int,
    pub n_detections: int,
    pub diffraction_spike: bool,
    pub motion_catalog: bool,
    pub ys4: bool,
    pub observations: Seq<Option<ObsModel>>,
}

impl View for Observation {
    type V = ObsModel;

    open spec fn view(&self) -> ObsModel {
        ObsModel {
            mag_cmag: self.mag_cmag as int,
            field: self.field as int,
            survey: self.survey as int,
            star_galaxy: self.star_galaxy as int,
            xi_resid_cas: self.xi_resid_cas as int,
            eta_resid_cas: self.eta_resid_cas as int,
            calibration: self.calibration as int,
            pmmscan: self.pmmscan as int,
        }
    }
}

pub open spec fn obs_opt_view(o: Option<Observation>) -> Option<ObsModel> {
    match o {
        Some(obs) => Some(obs@),
        None => None,
    }
}

impl View for Observations {
    type V = Seq<Option<ObsModel>>;

    open spec fn view(&self) -> Seq<Option<ObsModel>> {
        seq![
            obs_opt_view(self.blue1),
            obs_opt_view(self.red1),
            obs_opt_view(self.blue2),
            obs_opt_view(self.red2),
            obs_opt_view(self.infrared),
        ]
    }
}

impl View for USNOBObject {
    type V = StarModel;

    open spec fn view(&self) -> StarModel {
        StarModel {
            usnob_id: self.usnob_id@,
            ra_cas: self.ra_cas as int,
            dec_cas: self.dec_cas as int,
            sigma_ra_mas: self.sigma_ra_mas as int,
            sigma_dec_mas: self.sigma_dec_mas as int,
            sigma_ra_fit_das: self.sigma_ra_fit_das as int,
            sigma_dec_fit_das: self.sigma_dec_fit_das as int,
            pm_ra_mas_yr: self.pm_ra_mas_yr as int,
            pm_dec_mas_yr: self.pm_dec_mas_yr as int,
            sigma_pm_ra_mas_yr: self.sigma_pm_ra_mas_yr as int,
            sigma_pm_dec_mas_yr: self.sigma_pm_dec_mas_yr as int,
            pm_prob_tenths: self.pm_prob_tenths as int,
            epoch_tenths: self.epoch_tenths as int,
            n_detections: self.n_detections as int,
            diffraction_spike: self.diffraction_spike,
            motion_catalog: self.motion_catalog,
            ys4: self.ys4,
            observations: self.observations@,
        }
    }
}

/// A u32 word reinterpreted as a signed 32-bit integer.
pub open spec fn as_i32(w: int) -> int {
    if w < 0x8000_0000 {
        w
    } else {
        w - 0x1_0000_0000
    }
}

/// Digit-group widths of the per-band magnitude words (words 5..9).
pub open spec fn mag_chunks() -> Seq<usize> {
    seq![4usize, 3usize, 1usize, 2usize]
}

/// Digit-group widths of the per-band residual words (words 10..14).
pub open spec fn resid_chunks() -> Seq<usize> {
    seq![4usize, 4usize, 1usize]
}

/// Model of one observation slot given its three words. A slot exists
/// exactly when its field number is nonzero. The residual guard mirrors the
/// catalog rule verbatim (at least two detections and field zero); since a
/// present slot always has a nonzero field, present residuals are zero.
pub open spec fn obs_model(wm: int, wr: int, wp: int, ndet: int) -> Option<ObsModel> {
    let field = chunk_value(wm, mag_chunks(), 1);
    if field == 0 {
        None
    } else {
        Some(
            ObsModel {
                mag_cmag: chunk_value(wm, mag_chunks(), 0),
                field: field,
                survey: chunk_value(wm, mag_chunks(), 2),
                star_galaxy: chunk_value(wm, mag_chunks(), 3),
                xi_resid_cas: if ndet >= 2 && field == 0 {
                    chunk_value(wr, resid_chunks(), 0)
                } else {
                    0
                },
                eta_resid_cas: if ndet >= 2 && field == 0 {
                    chunk_value(wr, resid_chunks(), 1)
                } else {
                    0
                },
                calibration: chunk_value(wr, resid_chunks(), 2),
                pmmscan: as_i32(wp),
            },
        )
    }
}

/// Digit-group widths of word 2 (proper motions).
pub open spec fn pm_chunks() -> Seq<usize> {
    seq![4usize, 4usize, 1usize, 1usize]
}

/// Digit-group widths of word 3 (motion uncertainties, fit sigmas, counts).
pub open spec fn sig_chunks() -> Seq<usize> {
    seq![3usize, 3usize, 1usize, 1usize, 1usize, 1usize]
}

/// Digit-group widths of word 4 (position sigmas, epoch, flag).
pub open spec fn pos_chunks() -> Seq<usize> {
    seq![3usize, 3usize, 3usize, 1usize]
}

/// The model a record's first eighty bytes decode to, for a 1-based record
/// number.
pub open spec fn star_model(b: Seq<u8>, record: int) -> StarModel {
    let w1 = word_at(b, 1);
    let w2 = word_at(b, 2);
    let w3 = word_at(b, 3);
    let w4 = word_at(b, 4);
    let ndet = chunk_value(w3, sig_chunks(), 4);
    StarModel {
        usnob_id: usnob_id_chars(w1 / 36000, record),
        ra_cas: word_at(b, 0),
        dec_cas: w1,
        sigma_ra_mas: chunk_value(w4, pos_chunks(), 0),
        sigma_dec_mas: chunk_value(w4, pos_chunks(), 1),
        sigma_ra_fit_das: chunk_value(w3, sig_chunks(), 2),
        sigma_dec_fit_das: chunk_value(w3, sig_chunks(), 3),
        pm_ra_mas_yr: 2 * chunk_value(w2, pm_chunks(), 0) - 10000,
        pm_dec_mas_yr: 2 * chunk_value(w2, pm_chunks(), 1) - 10000,
        sigma_pm_ra_mas_yr: chunk_value(w3, sig_chunks(), 0),
        sigma_pm_dec_mas_yr: chunk_value(w3, sig_chunks(), 1),
        pm_prob_tenths: chunk_value(w2, pm_chunks(), 2),
        epoch_tenths: chunk_value(w4, pos_chunks(), 2),
        n_detections: ndet,
        diffraction_spike: chunk_value(w3, sig_chunks(), 5) == 1,
        motion_catalog: chunk_value(w2, pm_chunks(), 3) == 1,
        ys4: chunk_value(w4, pos_chunks(), 3) == 1,
        observations: Seq::new(5, |i: int|
            obs_model(word_at(b, 5 + i), word_at(b, 10 + i), word_at(b, 15 + i), ndet)),
    }
}

/// Why a record failed to decode.
#[derive(Debug, Clone, Copy, PartialEq, Eq, Structural)]
pub enum ParseError {
    /// Right ascension or declination outside the allowed range.
    OutOfRange,
    /// Fewer than eighty bytes were supplied.
    Malformed,
}

/// Range validation: RA in [0, 360) degrees and Dec in [-90, 90] degrees,
/// stated over the raw centi-arcsecond words.
pub open spec fn ra_dec_in_range(b: Seq<u8>) -> bool {
    word_at(b, 0) < 129_600_000 && word_at(b, 1) <= 64_800_000
}

/// Reinterprets a word as the signed 32-bit integer with the same bits.
fn word_to_i32(w: u32) -> (r: i32)
    ensures
        r as int == as_i32(w as int),
{
    if w >= 0x8000_0000 {
        let mag = u32::MAX - w;
        -(mag as i32) - 1
    } else {
        w as i32
    }
}

/// Decodes one observation slot from its magnitude, residual, and pmmscan
/// words.
fn decode_obs(wm: u32, wr: u32, wp: u32, ndet: u8) -> (o: Option<Observation>)
    ensures
        obs_opt_view(o) == obs_model(wm as int, wr as int, wp as int, ndet as int),
{
    let mchunks = vec![4usize, 3usize, 1usize, 2usize];
    let parts = extract_digit_chunks(wm, mchunks.as_slice());
    proof {
        assert(mchunks@ =~= mag_chunks());
        reveal_with_fuel(pow10, 5);
        lemma_chunk_value_bound(wm as int, mag_chunks(), 0);
        lemma_chunk_value_bound(wm as int, mag_chunks(), 1);
        lemma_chunk_value_bound(wm as int, mag_chunks(), 2);
        lemma_chunk_value_bound(wm as int, mag_chunks(), 3);
    }
    let field = parts[1];
    if field == 0 {
        return None;
    }
    let rchunks = vec![4usize, 4usize, 1usize];
    let rparts = extract_digit_chunks(wr, rchunks.as_slice());
    proof {
        assert(rchunks@ =~= resid_chunks());
        reveal_with_fuel(pow10, 5);
        lemma_chunk_value_bound(wr as int, resid_chunks(), 0);
        lemma_chunk_value_bound(wr as int, resid_chunks(), 1);
        lemma_chunk_value_bound(wr as int, resid_chunks(), 2);
    }
    let resid_present = ndet >= 2 && field == 0;
    Some(
        Observation {
            mag_cmag: parts[0],
            field: field as i16,
            survey: parts[2],
            star_galaxy: parts[3] as u8,
            xi_resid_cas: if resid_present {
                rparts[0]
            } else {
                0
            },
            eta_resid_cas: if resid_present {
                rparts[1]
            } else {
                0
            },
            calibration: rparts[2] as u8,
            pmmscan: word_to_i32(wp),
        },
    )
}

impl USNOBObject {
    /// Decodes one eighty-byte record; `id` is the record's 1-based position
    /// in its file (at most seven digits, so the identifier keeps its fixed
    /// shape). Fails with `Malformed` when fewer than eighty bytes are given
    /// and with `OutOfRange` when RA or Dec falls outside its range.
    pub fn from_bytes(buffer: &[u8], id: usize) -> (r: Result<USNOBObject, ParseError>)
        requires
            id <= 9_999_999,
        ensures
            r is Ok <==> buffer@.len() >= 80 && ra_dec_in_range(buffer@),
            r matches Err(e) ==> (e == ParseError::Malformed <==> buffer@.len() < 80),
            r matches Ok(s) ==> s@ == star_model(buffer@, id as int),
    {
        if buffer.len() < USNOB_RECORD_SIZE {
            return Err(ParseError::Malformed);
        }
        let w0 = read_word(buffer, 0);
        let w1 = read_word(buffer, 1);
        if w0 >= 129_600_000 {
            return Err(ParseError::OutOfRange);
        }
        if w1 > 64_800_000 {
            return Err(ParseError::OutOfRange);
        }
        let w2 = read_word(buffer, 2);
        let w3 = read_word(buffer, 3);
        let w4 = read_word(buffer, 4);

        let pchunks = vec![4usize, 4usize, 1usize, 1usize];
        let pparts = extract_digit_chunks(w2, pchunks.as_slice());
        let schunks = vec![3usize, 3usize, 1usize, 1usize, 1usize, 1usize];
        let sparts = extract_digit_chunks(w3, schunks.as_slice());
        let ochunks = vec![3usize, 3usize, 3usize, 1usize];
        let oparts = extract_digit_chunks(w4, ochunks.as_slice());
        proof {
            assert(pchunks@ =~= pm_chunks());
            assert(schunks@ =~= sig_chunks());
            assert(ochunks@ =~= pos_chunks());
            reveal_with_fuel(pow10, 5);
            lemma_chunk_value_bound(w2 as int, pm_chunks(), 0);
            lemma_chunk_value_bound(w2 as int, pm_chunks(), 1);
            lemma_chunk_value_bound(w2 as int, pm_chunks(), 2);
            lemma_chunk_value_bound(w2 as int, pm_chunks(), 3);
            lemma_chunk_value_bound(w3 as int, sig_chunks(), 0);
            lemma_chunk_value_bound(w3 as int, sig_chunks(), 1);
            lemma_chunk_value_bound(w3 as int, sig_chunks(), 2);
            lemma_chunk_value_bound(w3 as int, sig_chunks(), 3);
            lemma_chunk_value_bound(w3 as int, sig_chunks(), 4);
            lemma_chunk_value_bound(w3 as int, sig_chunks(), 5);
            lemma_chunk_value_bound(w4 as int, pos_chunks(), 0);
            lemma_chunk_value_bound(w4 as int, pos_chunks(), 1);
            lemma_chunk_value_bound(w4 as int, pos_chunks(), 2);
            lemma_chunk_value_bound(w4 as int, pos_chunks(), 3);
        }
        let n_detections = sparts[4] as u8;

        let blue1 = decode_obs(
            read_word(buffer, 5),
            read_word(buffer, 10),
            read_word(buffer, 15),
            n_detections,
        );
        let red1 = decode_obs(
            read_word(buffer, 6),
            read_word(buffer, 11),
            read_word(buffer, 16),
            n_detections,
        );
        let blue2 = decode_obs(
            read_word(buffer, 7),
            read_word(buffer, 12),
            read_word(buffer, 17),
            n_detections,
        );
        let red2 = decode_obs(
            read_word(buffer, 8),
            read_word(buffer, 13),
            read_word(buffer, 18),
            n_detections,
        );
        let infrared = decode_obs(
            read_word(buffer, 9),
            read_word(buffer, 14),
            read_word(buffer, 19),
            n_detections,
        );

        let zone = w1 / 36000;
        let usnob_id = format_usnob_id(zone, id);

        let star = USNOBObject {
            usnob_id,
            ra_cas: w0,
            dec_cas: w1,
            sigma_ra_mas: oparts[0] as u16,
            sigma_dec_mas: oparts[1] as u16,
            sigma_ra_fit_das: sparts[2] as u8,
            sigma_dec_fit_das: sparts[3] as u8,
            pm_ra_mas_yr: (2 * (pparts[0] as i32) - 10000) as i16,
            pm_dec_mas_yr: (2 * (pparts[1] as i32) - 10000) as i16,
            sigma_pm_ra_mas_yr: sparts[0] as u16,
            sigma_pm_dec_mas_yr: sparts[1] as u16,
            pm_prob_tenths: pparts[2] as u8,
            epoch_tenths: oparts[2] as u16,
            n_detections,
            diffraction_spike: sparts[5] == 1,
            motion_catalog: pparts[3] == 1,
            ys4: oparts[3] == 1,
            observations: Observations { blue1, red1, blue2, red2, infrared },
        };
        proof {
            assert(star@.observations =~= star_model(buffer@, id as int).observations);
        }
        Ok(star)
    }
}

/// Number of whole records a catalog of the given byte length holds; a
/// trailing partial record does not count.
pub fn record_count(len_bytes: usize) -> (r: usize)
    ensures
        r == len_bytes as int / 80,
{
    len_bytes / USNOB_RECORD_SIZE
}

/// The first eighty bytes with each four-byte word reversed: how a record
/// written on a big-endian machine reads on this one.
pub open spec fn swapped_words(b: Seq<u8>) -> Seq<u8> {
    Seq::new(80, |i: int| b[4 * (i / 4) + (3 - i % 4)])
}

impl USNOBObject {
    /// Decodes one eighty-byte record whose words are big-endian: the
    /// cross-platform entry point for catalogs produced on the other byte
    /// order. Same contract as from_bytes, over the word-swapped bytes.
    pub fn from_bytes_be(buffer: &[u8], id: usize) -> (r: Result<USNOBObject, ParseError>)
        requires
            id <= 9_999_999,
        ensures
            r is Ok <==> buffer@.len() >= 80 && ra_dec_in_range(swapped_words(buffer@)),
            r matches Err(e) ==> (e == ParseError::Malformed <==> buffer@.len() < 80),
            r matches Ok(s) ==> s@ == star_model(swapped_words(buffer@), id as int),
    {
        if buffer.len() < USNOB_RECORD_SIZE {
            return Err(ParseError::Malformed);
        }
        let mut sw: Vec<u8> = Vec::new();
        let mut i: usize = 0;
        while i < 80
            invariant
                buffer@.len() >= 80,
                sw@.len() == i,
                i <= 80,
                forall|j: int| 0 <= j < i ==> sw@[j] == buffer@[4 * (j / 4) + (3 - j % 4)],
            decreases 80 - i,
        {
            let group = i / 4;
            let k = i % 4;
            sw.push(buffer[4 * group + (3 - k)]);
            i = i + 1;
        }
        proof {
            assert(sw@ =~= swapped_words(buffer@));
        }
        USNOBObject::from_bytes(sw.as_slice(), id)
    }
}

/// Models of the records that decode successfully among the first n of a
/// file, in file order; record numbers are 1-based file positions. Records
/// that fail to decode are skipped silently.
pub open spec fn decoded_models(b: Seq<u8>, n: int) -> Seq<StarModel>
    decreases n,
{
    if n <= 0 {
        Seq::empty()
    } else {
        let prefix = decoded_models(b, n - 1);
        let rec = b.subrange(80 * (n - 1), 80 * n);
        if ra_dec_in_range(rec) {
            prefix.push(star_model(rec, n))
        } else {
            prefix
        }
    }
}

/// Decodes every whole eighty-byte record of a catalog buffer, skipping
/// records whose coordinates are out of range, exactly as iterating a file
/// does. The length bound keeps every record number within seven digits.
pub fn decode_records(data: &[u8]) -> (stars: Vec<USNOBObject>)
    requires
        data@.len() <= 80 * 9_999_999,
    ensures
        stars@.map_values(|s: USNOBObject| s@) == decoded_models(
            data@,
            data@.len() as int / 80,
        ),
{
    let n = data.len();
    let total = n / 80;
    let mut stars: Vec<USNOBObject> = Vec::new();
    let mut i: usize = 0;
    while i < total
        invariant
            i <= total,
            total == data@.len() as int / 80,
            n == data@.len(),
            data@.len() <= 80 * 9_999_999,
            stars@.map_values(|s: USNOBObject| s@) == decoded_models(data@, i as int),
        decreases total - i,
    {
        assert(80 * (i + 1) <= 80 * total <= data@.len());
        let rec = slice_subrange(data, 80 * i, 80 * i + 80);
        let ghost prev = stars@;
        match USNOBObject::from_bytes(rec, i + 1) {
            Ok(s) => {
                stars.push(s);
                proof {
                    assert(stars@.map_values(|s: USNOBObject| s@) =~= prev.map_values(
                        |s: USNOBObject| s@,
                    ).push(stars@.last()@));
                }
            },
            Err(_) => {},
        }
        i = i + 1;
    }
    stars
}

} // verus!
