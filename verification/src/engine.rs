//! The per-pixel evaluation driver.
//!
//! The scripting runtime itself runs on the caller's side of the boundary:
//! the caller compiles the expression against the input names, invokes the
//! compiled function once per pixel in row-major order with the argument
//! vectors of [`crate::custom_script::ImageDataCollection::pixel_args`],
//! and records one [`EvalOutcome`] per pixel. Everything that is decided
//! about those outcomes is decided here: how a returned value quantizes to
//! the four 8-bit channels, which outcomes are failures, and that any
//! failure aborts the whole tile with no partial image.

use crate::utils::{string_from_utf8, ImageData, ScriptError, ScriptErrorView};
use vstd::prelude::*;
use vstd::string::StrSliceExecFns;
use vstd::utf8::{
    decode_utf8_encode_utf8, encode_utf8, encode_utf8_valid_utf8, is_leading_byte_width_1,
    partial_valid_utf8_extend_ascii_block, valid_utf8, valid_utf8_concat,
};

verus! {

/// What one invocation of the compiled pixel function came to.
pub enum EvalOutcome {
    /// The call produced an ordered sequence of numbers; each entry is the
    /// number truncated toward zero to a 64-bit integer, which loses
    /// nothing that the 8-bit quantization would keep.
    Returned(Vec<i64>),
    /// The call produced something that is not an ordered sequence.
    NotASequence,
    /// The call raised; carries the diagnostic.
    Raised(String),
}

/// The abstract value of an [`EvalOutcome`].
pub enum EvalOutcomeView {
    Returned(Seq<i64>),
    NotASequence,
    Raised(Seq<char>),
}

impl View for EvalOutcome {
    type V = EvalOutcomeView;

    open spec fn view(&self) -> EvalOutcomeView {
        match self {
            EvalOutcome::Returned(vals) => EvalOutcomeView::Returned(vals@),
            EvalOutcome::NotASequence => EvalOutcomeView::NotASequence,
            EvalOutcome::Raised(d) => EvalOutcomeView::Raised(d@),
        }
    }
}

/// The abstract values of a sequence of outcomes.
pub open spec fn outcome_views(s: Seq<EvalOutcome>) -> Seq<EvalOutcomeView> {
    s.map_values(|o: EvalOutcome| o@)
}

/// A channel value clamped to the 8-bit range: values above 255 saturate to
/// 255, values below 0 saturate to 0.
pub open spec fn spec_clamp(v: int) -> int {
    if v < 0 {
        0
    } else if v > 255 {
        255
    } else {
        v
    }
}

/// One channel of a returned sequence: its entry at `c`, or 0 where the
/// sequence is too short — a missing channel reads as nothing, exactly as
/// an out-of-range index of the script's return value evaluates to no
/// number.
pub open spec fn spec_channel(vals: Seq<i64>, c: int) -> int {
    if 0 <= c < vals.len() {
        spec_clamp(vals[c] as int)
    } else {
        0
    }
}

/// The four 8-bit channels of a returned sequence: its first four entries,
/// clamped, with missing entries reading as 0.
pub open spec fn spec_quantized(vals: Seq<i64>) -> Seq<u8> {
    seq![
        spec_channel(vals, 0) as u8,
        spec_channel(vals, 1) as u8,
        spec_channel(vals, 2) as u8,
        spec_channel(vals, 3) as u8,
    ]
}

/// Whether an outcome fails its pixel, and with which error: a raise fails
/// with `RuntimeError` carrying the diagnostic, and a value that is not an
/// ordered sequence fails with `InvalidReturnType`.
pub open spec fn spec_outcome_error(o: EvalOutcomeView) -> Option<ScriptErrorView> {
    match o {
        EvalOutcomeView::Returned(_) => None,
        EvalOutcomeView::NotASequence => Some(ScriptErrorView::InvalidReturnType),
        EvalOutcomeView::Raised(d) => Some(ScriptErrorView::RuntimeError(d)),
    }
}

/// The four bytes an outcome writes: the quantized channels for a
/// successful outcome, and the transparent zero pixel under a failure
/// (never observable, since a failure aborts the tile).
pub open spec fn spec_outcome_pixel(o: EvalOutcomeView) -> Seq<u8> {
    match o {
        EvalOutcomeView::Returned(vals) => spec_quantized(vals),
        _ => seq![0u8, 0u8, 0u8, 0u8],
    }
}

/// The error a whole tile's outcome sequence ends in: `None` when every
/// pixel succeeded, otherwise the error of the last failing pixel — each
/// failure overwrites the one before it, as the evaluation loop runs the
/// tile to the end before it reports.
pub open spec fn spec_tile_error(outcomes: Seq<EvalOutcomeView>) -> Option<ScriptErrorView>
    decreases outcomes.len(),
{
    if outcomes.len() == 0 {
        None
    } else {
        match spec_outcome_error(outcomes.last()) {
            Some(e) => Some(e),
            None => spec_tile_error(outcomes.drop_last()),
        }
    }
}

/// The flat RGBA bytes of a tile, outcome by outcome in row-major order.
pub open spec fn spec_tile_pixels(outcomes: Seq<EvalOutcomeView>) -> Seq<u8>
    decreases outcomes.len(),
{
    if outcomes.len() == 0 {
        Seq::empty()
    } else {
        spec_tile_pixels(outcomes.drop_last()) + spec_outcome_pixel(outcomes.last())
    }
}

/// What assembling a tile from an outcome sequence must come to: the flat
/// quantized bytes when every pixel succeeded, the last failure otherwise.
/// A function of the outcomes alone — which is why two evaluations over
/// identical inputs and outcomes yield byte-identical tiles.
pub open spec fn spec_assemble(outcomes: Seq<EvalOutcomeView>) -> Result<Seq<u8>, ScriptErrorView> {
    match spec_tile_error(outcomes) {
        Some(e) => Err(e),
        None => Ok(spec_tile_pixels(outcomes)),
    }
}

/// One channel value clamped to `[0, 255]` and truncated to 8 bits.
pub fn clamp_channel(v: i64) -> (r: u8)
    ensures
        r as int == spec_clamp(v as int),
{
    if v < 0 {
        0
    } else if v > 255 {
        255
    } else {
        v as u8
    }
}

/// One channel of a returned sequence, clamped, a missing entry reading
/// as 0.
fn channel_at(vals: &Vec<i64>, c: usize) -> (r: u8)
    ensures
        r as int == spec_channel(vals@, c as int),
{
    if c < vals.len() {
        clamp_channel(vals[c])
    } else {
        0
    }
}

/// The four 8-bit channels of one pixel, or the pixel's failure: quantizes
/// a returned sequence, and maps every other outcome to its error.
pub fn quantize_pixel(outcome: &EvalOutcome) -> (r: Result<[u8; 4], ScriptError>)
    ensures
        match r {
            Ok(px) => spec_outcome_error(outcome@) is None && px@ == spec_outcome_pixel(outcome@),
            Err(e) => spec_outcome_error(outcome@) == Some(e@),
        },
{
    match outcome {
        EvalOutcome::Returned(vals) => {
            let px = [
                channel_at(vals, 0),
                channel_at(vals, 1),
                channel_at(vals, 2),
                channel_at(vals, 3),
            ];
            proof {
                assert(px@ =~= spec_quantized(vals@));
            }
            Ok(px)
        },
        EvalOutcome::NotASequence => Err(ScriptError::InvalidReturnType),
        EvalOutcome::Raised(d) => Err(ScriptError::RuntimeError(d.clone())),
    }
}

/// Taking one more outcome either fails with that outcome's error or
/// appends that outcome's four bytes.
proof fn lemma_tile_step(s: Seq<EvalOutcomeView>, k: int)
    requires
        0 <= k < s.len(),
    ensures
        spec_tile_error(s.take(k + 1)) == (match spec_outcome_error(s[k]) {
            Some(e) => Some(e),
            None => spec_tile_error(s.take(k)),
        }),
        spec_tile_pixels(s.take(k + 1)) == spec_tile_pixels(s.take(k)) + spec_outcome_pixel(s[k]),
{
    let t = s.take(k + 1);
    assert(t.drop_last() =~= s.take(k));
    assert(t.last() == s[k]);
}

/// Assembles the whole tile's image from one outcome per pixel, in
/// row-major order: pixel `(i, j)` of a `tile_size`-sized tile is outcome
/// `i * tile_size + j`. Succeeds with the quantized image exactly when
/// every pixel succeeded; any failing pixel fails the whole tile — no
/// partial image is ever returned — and the last failure is the one
/// reported.
pub fn assemble_tile(tile_size: usize, outcomes: &Vec<EvalOutcome>) -> (r: Result<
    ImageData<u8>,
    ScriptError,
>)
    requires
        outcomes@.len() == tile_size * tile_size,
        4 * (tile_size * tile_size) <= usize::MAX,
    ensures
        match r {
            Ok(img) => {
                &&& spec_tile_error(outcome_views(outcomes@)) is None
                &&& img.wf()
                &&& img.width == tile_size
                &&& img.height == tile_size
                &&& img.channels == 4
                &&& img.data@ == spec_tile_pixels(outcome_views(outcomes@))
            },
            Err(e) => spec_tile_error(outcome_views(outcomes@)) == Some(e@),
        },
{
    let ghost views = outcome_views(outcomes@);
    let total: usize = outcomes.len();
    let mut data: Vec<u8> = Vec::new();
    let mut err: Option<ScriptError> = None;
    let mut k: usize = 0;
    while k < total
        invariant
            total == outcomes@.len(),
            views == outcome_views(outcomes@),
            k <= total,
            data@.len() == 4 * k,
            data@ == spec_tile_pixels(views.take(k as int)),
            match err {
                None => spec_tile_error(views.take(k as int)) is None,
                Some(e) => spec_tile_error(views.take(k as int)) == Some(e@),
            },
        decreases total - k,
    {
        proof {
            lemma_tile_step(views, k as int);
            assert(views[k as int] == outcomes@[k as int]@);
        }
        match quantize_pixel(&outcomes[k]) {
            Ok(px) => {
                data.push(px[0]);
                data.push(px[1]);
                data.push(px[2]);
                data.push(px[3]);
                proof {
                    assert(data@ =~= spec_tile_pixels(views.take(k as int)) + spec_outcome_pixel(
                        views[k as int],
                    ));
                }
            },
            Err(e) => {
                data.push(0);
                data.push(0);
                data.push(0);
                data.push(0);
                proof {
                    assert(spec_outcome_pixel(views[k as int]) =~= seq![0u8, 0u8, 0u8, 0u8]);
                    assert(data@ =~= spec_tile_pixels(views.take(k as int)) + spec_outcome_pixel(
                        views[k as int],
                    ));
                }
                err = Some(e);
            },
        }
        k = k + 1;
    }
    proof {
        assert(views.take(total as int) =~= views);
    }
    match err {
        Some(e) => Err(e),
        None => Ok(ImageData::from_vec(tile_size, tile_size, 4, data)),
    }
}

/// What compiling the expression came to, on the caller's side of the
/// boundary.
pub enum CompileOutcome {
    /// The expression compiled; pixel evaluation went ahead.
    Compiled,
    /// The expression failed to compile; carries the compiler's diagnostic.
    Failed(String),
}

/// The abstract value of a [`CompileOutcome`].
pub enum CompileOutcomeView {
    Compiled,
    Failed(Seq<char>),
}

impl View for CompileOutcome {
    type V = CompileOutcomeView;

    open spec fn view(&self) -> CompileOutcomeView {
        match self {
            CompileOutcome::Compiled => CompileOutcomeView::Compiled,
            CompileOutcome::Failed(d) => CompileOutcomeView::Failed(d@),
        }
    }
}

/// What a whole tile evaluation must come to, compilation included: a
/// compilation failure aborts the tile with `CompilationError` before any
/// pixel counts, and an evaluated tile assembles per [`spec_assemble`].
pub open spec fn spec_run_tile(compiled: CompileOutcomeView, outcomes: Seq<EvalOutcomeView>) -> Result<
    Seq<u8>,
    ScriptErrorView,
> {
    match compiled {
        CompileOutcomeView::Failed(d) => Err(ScriptErrorView::CompilationError(d)),
        CompileOutcomeView::Compiled => spec_assemble(outcomes),
    }
}

/// Finishes one tile request from what the scripting runtime reported:
/// the compilation outcome and, if it compiled, one evaluation outcome per
/// pixel in row-major order. Returns the quantized image exactly when the
/// expression compiled and every pixel succeeded; otherwise the
/// compilation error, or the evaluation error of the last failing pixel.
/// No partial image is ever returned.
pub fn run_tile(tile_size: usize, compiled: &CompileOutcome, outcomes: &Vec<EvalOutcome>) -> (r:
    Result<ImageData<u8>, ScriptError>)
    requires
        compiled matches CompileOutcome::Compiled ==> outcomes@.len() == tile_size * tile_size,
        4 * (tile_size * tile_size) <= usize::MAX,
    ensures
        match r {
            Ok(img) => {
                &&& spec_run_tile(compiled@, outcome_views(outcomes@)) == Ok::<
                    Seq<u8>,
                    ScriptErrorView,
                >(img.data@)
                &&& img.wf()
                &&& img.width == tile_size
                &&& img.height == tile_size
                &&& img.channels == 4
            },
            Err(e) => spec_run_tile(compiled@, outcome_views(outcomes@)) == Err::<
                Seq<u8>,
                ScriptErrorView,
            >(e@),
        },
{
    match compiled {
        CompileOutcome::Failed(d) => Err(ScriptError::CompilationError(d.clone())),
        CompileOutcome::Compiled => assemble_tile(tile_size, outcomes),
    }
}

/// A failure on any single pixel fails the whole tile: if any outcome in
/// the sequence is a failure, the assembled result is an error, never an
/// image.
pub proof fn lemma_single_failure_aborts(outcomes: Seq<EvalOutcomeView>, k: int)
    requires
        0 <= k < outcomes.len(),
        spec_outcome_error(outcomes[k]) is Some,
    ensures
        spec_tile_error(outcomes) is Some,
        spec_assemble(outcomes) is Err,
    decreases outcomes.len(),
{
    if k < outcomes.len() - 1 {
        match spec_outcome_error(outcomes.last()) {
            Some(_) => {},
            None => {
                assert(outcomes.drop_last()[k] == outcomes[k]);
                lemma_single_failure_aborts(outcomes.drop_last(), k);
            },
        }
    }
}

/// The decimal digit bytes of a positive number, most significant first
/// (and nothing for zero — [`spec_decimal`] special-cases it).
pub open spec fn spec_decimal_digits(n: int) -> Seq<u8>
    decreases n,
{
    if n <= 0 {
        seq![]
    } else {
        spec_decimal_digits(n / 10).push((0x30 + n % 10) as u8)
    }
}

/// The decimal spelling of a number, as ASCII bytes.
pub open spec fn spec_decimal(n: int) -> Seq<u8> {
    if n == 0 {
        seq![0x30u8]
    } else {
        spec_decimal_digits(n)
    }
}

/// The decimal spelling of a number.
fn decimal_bytes(n: u64) -> (r: Vec<u8>)
    ensures
        r@ == spec_decimal(n as int),
        forall|i: int| 0 <= i < r@.len() ==> 0x30 <= #[trigger] r@[i] <= 0x39,
{
    let mut out: Vec<u8> = Vec::new();
    if n == 0 {
        out.push(0x30);
        proof {
            assert(out@ =~= spec_decimal(0));
        }
        return out;
    }
    let mut m: u64 = n;
    while m > 0
        invariant
            spec_decimal_digits(n as int) == spec_decimal_digits(m as int) + out@,
            forall|i: int| 0 <= i < out@.len() ==> 0x30 <= #[trigger] out@[i] <= 0x39,
        decreases m,
    {
        let d: u8 = 0x30 + (m % 10) as u8;
        let ghost before = out@;
        out.insert(0, d);
        proof {
            assert(out@ =~= seq![d] + before);
            assert(spec_decimal_digits(m as int) == spec_decimal_digits(m as int / 10).push(d));
            assert(spec_decimal_digits(m as int / 10) + (seq![d] + before) =~= (
            spec_decimal_digits(m as int / 10).push(d)) + before);
        }
        m = m / 10;
    }
    proof {
        assert(spec_decimal_digits(0) + out@ =~= out@);
    }
    out
}

/// A sequence of ASCII bytes is valid UTF-8.
proof fn lemma_valid_ascii_bytes(s: Seq<u8>)
    requires
        forall|i: int| 0 <= i < s.len() ==> #[trigger] s[i] < 0x80,
    ensures
        valid_utf8(s),
{
    assert(forall|i: int| 0 <= i < s.len() ==> is_leading_byte_width_1(#[trigger] s[i]));
    assert(valid_utf8(s.subrange(0, 0)));
    partial_valid_utf8_extend_ascii_block(s, 0, s.len() as int);
    assert(s.subrange(0, s.len() as int) =~= s);
}

/// The diagnostic block naming the offending source line, with a column
/// marker of carets under the failing span, as its UTF-8 bytes.
pub open spec fn spec_underline_bytes(line: Seq<char>, start: int, end: int) -> Seq<u8> {
    encode_utf8("at line: \n"@) + encode_utf8(line) + encode_utf8("\n"@) + Seq::new(
        if start >= 0 {
            start as nat
        } else {
            0
        },
        |i: int| 0x20u8,
    ) + Seq::new(
        if end >= start {
            (end - start) as nat
        } else {
            0
        },
        |i: int| 0x5Eu8,
    ) + encode_utf8("\n"@)
}

/// The offending source line with a caret marker under the failing column
/// span: the text `at line: ` on one line, the source line on the next,
/// and `^` under each column from `start_column` to `end_column`.
pub fn underline_source_line(line: &str, start_column: usize, end_column: usize) -> (r: String)
    ensures
        encode_utf8(r@) == spec_underline_bytes(
            line@,
            start_column as int,
            end_column as int,
        ),
{
    let mut out: Vec<u8> = Vec::new();
    let mut head = "at line: \n".as_bytes_vec();
    out.append(&mut head);
    let mut mid = line.as_bytes_vec();
    out.append(&mut mid);
    let mut nl = "\n".as_bytes_vec();
    out.append(&mut nl);
    let ghost upto_line = out@;
    let mut k: usize = 0;
    while k < start_column
        invariant
            k <= start_column,
            out@ == upto_line + Seq::new(k as nat, |i: int| 0x20u8),
        decreases start_column - k,
    {
        out.push(0x20);
        proof {
            assert(out@ =~= upto_line + Seq::new((k + 1) as nat, |i: int| 0x20u8));
        }
        k = k + 1;
    }
    let ghost upto_spaces = out@;
    let caret_count: usize = if end_column >= start_column {
        end_column - start_column
    } else {
        0
    };
    let mut t: usize = 0;
    while t < caret_count
        invariant
            t <= caret_count,
            out@ == upto_spaces + Seq::new(t as nat, |i: int| 0x5Eu8),
        decreases caret_count - t,
    {
        out.push(0x5E);
        proof {
            assert(out@ =~= upto_spaces + Seq::new((t + 1) as nat, |i: int| 0x5Eu8));
        }
        t = t + 1;
    }
    let mut tail = "\n".as_bytes_vec();
    out.append(&mut tail);
    proof {
        let spaces = Seq::new(start_column as nat, |i: int| 0x20u8);
        let carets = Seq::new(caret_count as nat, |i: int| 0x5Eu8);
        encode_utf8_valid_utf8("at line: \n"@);
        encode_utf8_valid_utf8(line@);
        encode_utf8_valid_utf8("\n"@);
        lemma_valid_ascii_bytes(spaces);
        lemma_valid_ascii_bytes(carets);
        valid_utf8_concat(encode_utf8("at line: \n"@), encode_utf8(line@));
        valid_utf8_concat(encode_utf8("at line: \n"@) + encode_utf8(line@), encode_utf8("\n"@));
        valid_utf8_concat(
            encode_utf8("at line: \n"@) + encode_utf8(line@) + encode_utf8("\n"@),
            spaces,
        );
        valid_utf8_concat(
            encode_utf8("at line: \n"@) + encode_utf8(line@) + encode_utf8("\n"@) + spaces,
            carets,
        );
        valid_utf8_concat(
            encode_utf8("at line: \n"@) + encode_utf8(line@) + encode_utf8("\n"@) + spaces
                + carets,
            encode_utf8("\n"@),
        );
        assert(out@ =~= spec_underline_bytes(line@, start_column as int, end_column as int));
        decode_utf8_encode_utf8(out@);
    }
    string_from_utf8(out)
}

/// A full runtime diagnostic: `script:<line>: <exception>` and the
/// underlined source line, as its UTF-8 bytes.
pub open spec fn spec_exception_report_bytes(
    line_number: int,
    exception: Seq<char>,
    line: Seq<char>,
    start: int,
    end: int,
) -> Seq<u8> {
    encode_utf8("script:"@) + spec_decimal(line_number) + encode_utf8(": "@) + encode_utf8(
        exception,
    ) + encode_utf8("\n"@) + spec_underline_bytes(line, start, end)
}

/// Formats the diagnostic of a raised exception: the script line number,
/// the exception text, and the offending source line underlined from
/// `start_column` to `end_column`.
pub fn exception_report(
    line_number: u64,
    exception: &str,
    line: &str,
    start_column: usize,
    end_column: usize,
) -> (r: String)
    ensures
        encode_utf8(r@) == spec_exception_report_bytes(
            line_number as int,
            exception@,
            line@,
            start_column as int,
            end_column as int,
        ),
{
    let mut out: Vec<u8> = Vec::new();
    let mut head = "script:".as_bytes_vec();
    out.append(&mut head);
    let mut num = decimal_bytes(line_number);
    out.append(&mut num);
    let mut sep = ": ".as_bytes_vec();
    out.append(&mut sep);
    let mut exc = exception.as_bytes_vec();
    out.append(&mut exc);
    let mut nl = "\n".as_bytes_vec();
    out.append(&mut nl);
    let underline = underline_source_line(line, start_column, end_column);
    let mut tail = underline.as_bytes_vec();
    out.append(&mut tail);
    proof {
        encode_utf8_valid_utf8("script:"@);
        encode_utf8_valid_utf8(": "@);
        encode_utf8_valid_utf8(exception@);
        encode_utf8_valid_utf8("\n"@);
        encode_utf8_valid_utf8(underline@);
        lemma_valid_ascii_bytes(spec_decimal(line_number as int));
        valid_utf8_concat(encode_utf8("script:"@), spec_decimal(line_number as int));
        valid_utf8_concat(
            encode_utf8("script:"@) + spec_decimal(line_number as int),
            encode_utf8(": "@),
        );
        valid_utf8_concat(
            encode_utf8("script:"@) + spec_decimal(line_number as int) + encode_utf8(": "@),
            encode_utf8(exception@),
        );
        valid_utf8_concat(
            encode_utf8("script:"@) + spec_decimal(line_number as int) + encode_utf8(": "@)
                + encode_utf8(exception@),
            encode_utf8("\n"@),
        );
        valid_utf8_concat(
            encode_utf8("script:"@) + spec_decimal(line_number as int) + encode_utf8(": "@)
                + encode_utf8(exception@) + encode_utf8("\n"@),
            encode_utf8(underline@),
        );
        assert(out@ =~= spec_exception_report_bytes(
            line_number as int,
            exception@,
            line@,
            start_column as int,
            end_column as int,
        ));
        decode_utf8_encode_utf8(out@);
    }
    string_from_utf8(out)
}

/// The assembled tile is a function of the outcome sequence alone: any two
/// results that [`assemble_tile`]'s contract admits for the same outcomes
/// carry byte-identical images, or the same error. Evaluating the same
/// descriptor on the same tile over unchanged sources replays the same
/// inputs and outcomes, so it replays the same bytes.
pub proof fn lemma_assembly_deterministic(
    outcomes: Seq<EvalOutcomeView>,
    r1: Result<ImageData<u8>, ScriptError>,
    r2: Result<ImageData<u8>, ScriptError>,
)
    requires
        r1 matches Ok(img) ==> (spec_tile_error(outcomes) is None && img.data@ == spec_tile_pixels(
            outcomes,
        )),
        r1 matches Err(e) ==> spec_tile_error(outcomes) == Some(e@),
        r2 matches Ok(img) ==> (spec_tile_error(outcomes) is None && img.data@ == spec_tile_pixels(
            outcomes,
        )),
        r2 matches Err(e) ==> spec_tile_error(outcomes) == Some(e@),
    ensures
        r1 matches Ok(i1) ==> (r2 matches Ok(i2) && i1.data@ == i2.data@),
        r1 matches Err(e1) ==> (r2 matches Err(e2) && e1@ == e2@),
{
}

} // verus!
