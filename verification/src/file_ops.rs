//! The row parser / repacker: turning CSV text into a flat byte buffer.
//!
//! The input text is split into lines; each line is split on commas, its
//! optional leading index field dropped, and each remaining field quantized
//! and written through the format's permutation into a default-filled pixel.
//! A line is accepted only when every declared channel field parsed; the
//! accepted pixels, in input line order, are concatenated into the output.

use vstd::prelude::*;

use std::fmt::Write;

use rayon::iter::IntoParallelRefIterator;
use rayon::iter::ParallelIterator;

use crate::ascii::{ascii_bytes_to_string, ascii_view};
use crate::quantize::{find_byte, lemma_find_byte_is, quantize_field, spec_quantize};
use crate::texture_formats::SupportedTextureFormats;
use crate::ConfigError;

verus! {

/// The views of a sequence of byte vectors.
pub open spec fn views_of(v: Seq<Vec<u8>>) -> Seq<Seq<u8>> {
    v.map_values(|x: Vec<u8>| x@)
}

/// One line with a single trailing carriage return dropped.
pub open spec fn strip_cr(l: Seq<u8>) -> Seq<u8> {
    if l.len() > 0 && l.last() == 13 {
        l.drop_last()
    } else {
        l
    }
}

/// The lines of `s`: pieces terminated by a newline byte, the final newline
/// optional, each piece losing one trailing carriage return.
pub open spec fn spec_lines(s: Seq<u8>) -> Seq<Seq<u8>>
    decreases s.len(),
{
    if s.len() == 0 {
        Seq::empty()
    } else {
        let p = find_byte(s, 10);
        if p >= s.len() {
            seq![strip_cr(s)]
        } else {
            seq![strip_cr(s.take(p as int))] + spec_lines(s.skip(p as int + 1))
        }
    }
}

/// The comma-separated fields of one line; always at least one field.
pub open spec fn spec_split_fields(s: Seq<u8>) -> Seq<Seq<u8>>
    decreases s.len(),
{
    let p = find_byte(s, 44);
    if p >= s.len() {
        seq![s]
    } else {
        seq![s.take(p as int)] + spec_split_fields(s.skip(p as int + 1))
    }
}

/// Copy `s[a..b]` into a fresh vector.
fn copy_range(s: &[u8], a: usize, b: usize) -> (v: Vec<u8>)
    requires
        a <= b <= s@.len(),
    ensures
        v@ == s@.subrange(a as int, b as int),
{
    vstd::slice::slice_to_vec(vstd::slice::slice_subrange(s, a, b))
}

/// Split the input into its lines, as `spec_lines` describes.
#[verifier::loop_isolation(false)]
pub fn split_lines(input: &[u8]) -> (r: Vec<Vec<u8>>)
    ensures
        views_of(r@) == spec_lines(input@),
{
    let ghost s = input@;
    let n = input.len();
    let mut out: Vec<Vec<u8>> = Vec::new();
    let mut start: usize = 0;
    proof {
        assert(s.skip(0) =~= s);
        assert(views_of(out@) =~= Seq::<Seq<u8>>::empty());
    }
    while start < n
        invariant
            0 <= start <= n,
            views_of(out@) + spec_lines(s.skip(start as int)) == spec_lines(s),
        decreases n - start,
    {
        let ghost suffix = s.skip(start as int);
        let mut j: usize = start;
        while j < n && input[j] != 10
            invariant
                start <= j <= n,
                forall|t: int| start <= t < j ==> s[t] != 10,
            decreases n - j,
        {
            j = j + 1;
        }
        proof {
            assert forall|t: int| 0 <= t < j - start implies suffix[t] != 10 by {
                assert(suffix[t] == s[start + t]);
            }
            if j < n {
                assert(suffix[j - start] == s[j as int]);
            }
            lemma_find_byte_is(suffix, 10, j - start);
        }
        let end: usize = if j > start && input[j - 1] == 13 {
            j - 1
        } else {
            j
        };
        let line = copy_range(input, start, end);
        proof {
            let raw = if j < n {
                suffix.take(j - start)
            } else {
                suffix
            };
            assert(raw =~= s.subrange(start as int, j as int));
            if j > start && s[j - 1] == 13 {
                assert(raw.last() == s[j - 1]);
                assert(strip_cr(raw) =~= s.subrange(start as int, j as int - 1));
            }
            assert(line@ == strip_cr(raw));
        }
        out.push(line);
        let ghost prev = start as int;
        if j < n {
            start = j + 1;
        } else {
            start = n;
        }
        proof {
            if j < n {
                assert(suffix.skip(j - prev + 1) =~= s.skip(start as int));
                assert(spec_lines(suffix) == seq![line@] + spec_lines(s.skip(start as int)));
            } else {
                assert(s.skip(start as int).len() == 0);
                assert(spec_lines(suffix) == seq![line@]);
            }
            assert(views_of(out@) =~= views_of(out@.drop_last()) + seq![line@]);
            assert(views_of(out@) + spec_lines(s.skip(start as int)) =~= spec_lines(s));
        }
    }
    proof {
        assert(s.skip(start as int).len() == 0);
        assert(views_of(out@) =~= spec_lines(s));
    }
    out
}

/// Split one line into its comma-separated fields, as `spec_split_fields`
/// describes.
#[verifier::loop_isolation(false)]
pub fn split_fields(line: &[u8]) -> (r: Vec<Vec<u8>>)
    ensures
        views_of(r@) == spec_split_fields(line@),
{
    let ghost s = line@;
    let n = line.len();
    let mut out: Vec<Vec<u8>> = Vec::new();
    let mut start: usize = 0;
    let mut done: bool = false;
    proof {
        assert(s.skip(0) =~= s);
        assert(views_of(out@) =~= Seq::<Seq<u8>>::empty());
    }
    while !done
        invariant
            0 <= start <= n,
            !done ==> views_of(out@) + spec_split_fields(s.skip(start as int)) == spec_split_fields(
                s,
            ),
            done ==> views_of(out@) == spec_split_fields(s),
        decreases n - start + 1 - (if done {
            1int
        } else {
            0int
        }),
    {
        let ghost suffix = s.skip(start as int);
        let mut j: usize = start;
        while j < n && line[j] != 44
            invariant
                start <= j <= n,
                forall|t: int| start <= t < j ==> s[t] != 44,
            decreases n - j,
        {
            j = j + 1;
        }
        proof {
            assert forall|t: int| 0 <= t < j - start implies suffix[t] != 44 by {
                assert(suffix[t] == s[start + t]);
            }
            if j < n {
                assert(suffix[j - start] == s[j as int]);
            }
            lemma_find_byte_is(suffix, 44, j - start);
        }
        let piece = copy_range(line, start, j);
        proof {
            if j < n {
                assert(piece@ =~= suffix.take(j - start));
            } else {
                assert(piece@ =~= suffix);
            }
        }
        out.push(piece);
        let ghost prev = start as int;
        if j < n {
            start = j + 1;
        } else {
            done = true;
        }
        proof {
            assert(views_of(out@) =~= views_of(out@.drop_last()) + seq![piece@]);
            if j < n {
                assert(suffix.skip(j - prev + 1) =~= s.skip(start as int));
                assert(spec_split_fields(suffix) == seq![piece@] + spec_split_fields(
                    s.skip(start as int),
                ));
                assert(views_of(out@) + spec_split_fields(s.skip(start as int))
                    =~= spec_split_fields(s));
            } else {
                assert(spec_split_fields(suffix) == seq![piece@]);
                assert(views_of(out@) =~= spec_split_fields(s));
            }
        }
    }
    out
}

/// The default pixel: zero color channels; four-channel output starts fully
/// opaque.
pub open spec fn spec_default_pixel(out: nat) -> Seq<u8> {
    if out == 4 {
        seq![0u8, 0u8, 0u8, 255u8]
    } else {
        seq![0u8, 0u8, 0u8]
    }
}

/// Fold the fields into the pixel, one field per permutation slot: a field
/// that quantizes is counted and, when its slot lies within the output
/// width, written there (a parsed alpha with no alpha slot is counted and
/// discarded); any other field, or a missing one, leaves the pixel
/// unchanged.
pub open spec fn spec_fill(
    pixel: Seq<u8>,
    count: nat,
    fields: Seq<Seq<u8>>,
    slots: Seq<usize>,
) -> (Seq<u8>, nat)
    decreases slots.len(),
{
    if slots.len() == 0 || fields.len() == 0 {
        (pixel, count)
    } else {
        match spec_quantize(fields[0]) {
            Some(q) => spec_fill(
                if (slots[0] as int) < pixel.len() {
                    pixel.update(slots[0] as int, q)
                } else {
                    pixel
                },
                count + 1,
                fields.skip(1),
                slots.skip(1),
            ),
            None => spec_fill(pixel, count, fields.skip(1), slots.skip(1)),
        }
    }
}

/// What one line yields: the repacked pixel if every one of the `cc`
/// declared channel fields parsed, and nothing otherwise.
pub open spec fn spec_row(
    line: Seq<u8>,
    slots: Seq<usize>,
    cc: nat,
    is_indexed: bool,
    out: nat,
) -> Option<Seq<u8>> {
    let fields0 = spec_split_fields(line);
    let fields = if is_indexed {
        fields0.skip(1)
    } else {
        fields0
    };
    let filled = spec_fill(spec_default_pixel(out), 0, fields, slots);
    if filled.1 == cc {
        Some(filled.0)
    } else {
        None
    }
}

/// Parse one line, as `spec_row` describes.
#[verifier::loop_isolation(false)]
pub fn parse_row(
    line: &Vec<u8>,
    slots: &Vec<usize>,
    cc: usize,
    is_indexed: bool,
    out: usize,
) -> (r: Option<Vec<u8>>)
    requires
        out == 3 || out == 4,
    ensures
        match r {
            Some(v) => spec_row(line@, slots@, cc as nat, is_indexed, out as nat) == Some(v@),
            None => spec_row(line@, slots@, cc as nat, is_indexed, out as nat) is None,
        },
{
    let fields = split_fields(line.as_slice());
    let ghost fields0 = views_of(fields@);
    let fstart: usize = if is_indexed {
        1
    } else {
        0
    };
    let ghost gfields = if is_indexed {
        fields0.skip(1)
    } else {
        fields0
    };

    let mut pixel: Vec<u8> = if out == 4 {
        vec![0u8, 0u8, 0u8, 255u8]
    } else {
        vec![0u8, 0u8, 0u8]
    };
    proof {
        assert(pixel@ =~= spec_default_pixel(out as nat));
    }
    let mut count: usize = 0;
    let mut i: usize = 0;
    let nslots = slots.len();
    proof {
        assert(gfields.skip(0) =~= gfields);
        assert(slots@.skip(0) =~= slots@);
    }
    while i < nslots
        invariant
            0 <= i <= nslots,
            count <= i,
            pixel@.len() == out,
            spec_fill(spec_default_pixel(out as nat), 0, gfields, slots@) == spec_fill(
                pixel@,
                count as nat,
                if i <= gfields.len() {
                    gfields.skip(i as int)
                } else {
                    Seq::empty()
                },
                slots@.skip(i as int),
            ),
        decreases nslots - i,
    {
        let ghost rem_fields: Seq<Seq<u8>> = if i <= gfields.len() {
            gfields.skip(i as int)
        } else {
            Seq::empty()
        };
        let ghost rem_slots = slots@.skip(i as int);
        proof {
            assert(rem_slots[0] == slots@[i as int]);
            assert(rem_slots.skip(1) =~= slots@.skip(i as int + 1));
        }
        if fstart + i < fields.len() {
            proof {
                assert(fstart + i < fields0.len());
                assert(rem_fields.len() > 0);
                assert(rem_fields[0] == fields0[fstart + i]);
                assert(rem_fields.skip(1) =~= (if i + 1 <= gfields.len() {
                    gfields.skip(i as int + 1)
                } else {
                    Seq::<Seq<u8>>::empty()
                }));
            }
            let q = quantize_field(fields[fstart + i].as_slice());
            match q {
                Some(b) => {
                    let slot = slots[i];
                    if slot < out {
                        pixel[slot] = b;
                    }
                    count = count + 1;
                },
                None => {},
            }
        } else {
            proof {
                assert(rem_fields.len() == 0);
                if i + 1 <= gfields.len() {
                    assert(gfields.skip(i as int + 1).len() == 0);
                    assert(gfields.skip(i as int + 1) =~= Seq::<Seq<u8>>::empty());
                }
            }
        }
        i = i + 1;
    }
    proof {
        assert(slots@.skip(nslots as int).len() == 0);
        let final_fields: Seq<Seq<u8>> = if nslots <= gfields.len() {
            gfields.skip(nslots as int)
        } else {
            Seq::empty()
        };
        assert(spec_fill(pixel@, count as nat, final_fields, slots@.skip(nslots as int)) == (
            pixel@,
            count as nat,
        ));
    }
    if count == cc {
        Some(pixel)
    } else {
        None
    }
}

/// The accepted rows of the given lines, in input order.
pub open spec fn spec_accepted(
    lines: Seq<Seq<u8>>,
    slots: Seq<usize>,
    cc: nat,
    is_indexed: bool,
    out: nat,
) -> Seq<Seq<u8>>
    decreases lines.len(),
{
    if lines.len() == 0 {
        Seq::empty()
    } else {
        let rest = spec_accepted(lines.skip(1), slots, cc, is_indexed, out);
        match spec_row(lines[0], slots, cc, is_indexed, out) {
            Some(p) => seq![p] + rest,
            None => rest,
        }
    }
}

/// The whole output buffer: the accepted pixels of every line, flattened in
/// input line order.
pub open spec fn spec_parse_file(
    s: Seq<u8>,
    fmt: SupportedTextureFormats,
    is_indexed: bool,
    out: nat,
) -> Seq<u8> {
    spec_accepted(
        spec_lines(s),
        fmt.spec_indices(),
        fmt.spec_channel_count(),
        is_indexed,
        out,
    ).flatten()
}

/// Relies on rayon's `par_iter`/`filter_map`/`collect` over a vector: the
/// collected items are the closure's accepted results in the order of the
/// source items, exactly as a sequential filter-map would produce them.
/// Each line is judged by the verified `parse_row`, whose contract pins the
/// per-line result.
#[verifier::external_body]
fn collect_rows_parallel(
    lines: &Vec<Vec<u8>>,
    slots: &Vec<usize>,
    cc: usize,
    is_indexed: bool,
    out: usize,
) -> (r: Vec<Vec<u8>>)
    requires
        out == 3 || out == 4,
    ensures
        views_of(r@) == spec_accepted(
            views_of(lines@),
            slots@,
            cc as nat,
            is_indexed,
            out as nat,
        ),
{
    lines.par_iter().filter_map(|line| parse_row(line, slots, cc, is_indexed, out)).collect()
}

/// Parse the whole input into a flat byte buffer, as `spec_parse_file`
/// describes: one pixel of `output_format_length` bytes per accepted line,
/// in input line order.  Any requested output channel count other than 3 or
/// 4 is a configuration error.
#[verifier::loop_isolation(false)]
pub fn parse_file(
    input: &[u8],
    is_indexed: bool,
    input_format: SupportedTextureFormats,
    output_format_length: usize,
) -> (r: Result<Vec<u8>, ConfigError>)
    ensures
        output_format_length == 3 || output_format_length == 4 ==> (match r {
            Ok(v) => v@ == spec_parse_file(
                input@,
                input_format,
                is_indexed,
                output_format_length as nat,
            ),
            Err(_) => false,
        }),
        !(output_format_length == 3 || output_format_length == 4) ==> r == Err::<
            Vec<u8>,
            ConfigError,
        >(ConfigError::UnsupportedChannelCount(output_format_length)),
{
    if !(output_format_length == 3 || output_format_length == 4) {
        return Err(ConfigError::UnsupportedChannelCount(output_format_length));
    }
    let cc = input_format.get_buffer_len();
    let slots = input_format.get_vec4_indices();
    let lines = split_lines(input);
    let rows = collect_rows_parallel(&lines, &slots, cc, is_indexed, output_format_length);
    let ghost acc = views_of(rows@);

    let mut buf: Vec<u8> = Vec::new();
    let nrows = rows.len();
    let mut i: usize = 0;
    proof {
        assert(acc.skip(0) =~= acc);
    }
    while i < nrows
        invariant
            0 <= i <= nrows,
            buf@ + acc.skip(i as int).flatten() == acc.flatten(),
        decreases nrows - i,
    {
        proof {
            let rem = acc.skip(i as int);
            assert(rem.first() == acc[i as int]);
            assert(rem.drop_first() =~= acc.skip(i as int + 1));
            assert(rem.flatten() == acc[i as int] + acc.skip(i as int + 1).flatten());
        }
        buf.extend_from_slice(rows[i].as_slice());
        i = i + 1;
    }
    proof {
        assert(acc.skip(nrows as int).len() == 0);
        assert(acc.skip(nrows as int).flatten() == Seq::<u8>::empty());
        assert(buf@ =~= acc.flatten());
    }
    Ok(buf)
}

/// How many of the lines are accepted.
pub open spec fn accepted_count(
    lines: Seq<Seq<u8>>,
    slots: Seq<usize>,
    cc: nat,
    is_indexed: bool,
    out: nat,
) -> nat
    decreases lines.len(),
{
    if lines.len() == 0 {
        0
    } else {
        (if spec_row(lines[0], slots, cc, is_indexed, out) is Some {
            1nat
        } else {
            0nat
        }) + accepted_count(lines.skip(1), slots, cc, is_indexed, out)
    }
}

/// Filling never changes the pixel's width.
pub proof fn lemma_fill_len(pixel: Seq<u8>, count: nat, fields: Seq<Seq<u8>>, slots: Seq<usize>)
    ensures
        spec_fill(pixel, count, fields, slots).0.len() == pixel.len(),
    decreases slots.len(),
{
    if slots.len() == 0 || fields.len() == 0 {
    } else {
        match spec_quantize(fields[0]) {
            Some(q) => {
                if (slots[0] as int) < pixel.len() {
                    lemma_fill_len(pixel.update(slots[0] as int, q), count + 1, fields.skip(1), slots.skip(1));
                } else {
                    lemma_fill_len(pixel, count + 1, fields.skip(1), slots.skip(1));
                }
            },
            None => {
                lemma_fill_len(pixel, count, fields.skip(1), slots.skip(1));
            },
        }
    }
}

/// There are as many accepted rows as accepted lines, and every accepted
/// pixel is as wide as the default pixel.
pub proof fn lemma_accepted_shape(
    lines: Seq<Seq<u8>>,
    slots: Seq<usize>,
    cc: nat,
    is_indexed: bool,
    out: nat,
)
    ensures
        spec_accepted(lines, slots, cc, is_indexed, out).len() == accepted_count(
            lines,
            slots,
            cc,
            is_indexed,
            out,
        ),
        forall|i: int|
            0 <= i < spec_accepted(lines, slots, cc, is_indexed, out).len()
                ==> #[trigger] spec_accepted(lines, slots, cc, is_indexed, out)[i].len()
                == spec_default_pixel(out).len(),
    decreases lines.len(),
{
    if lines.len() == 0 {
    } else {
        lemma_accepted_shape(lines.skip(1), slots, cc, is_indexed, out);
        let fields0 = spec_split_fields(lines[0]);
        let fields = if is_indexed {
            fields0.skip(1)
        } else {
            fields0
        };
        lemma_fill_len(spec_default_pixel(out), 0, fields, slots);
    }
}

/// Flattening rows of one common width concatenates them in place: the
/// result holds `w` bytes per row, the j-th row at offset `j * w`.
pub proof fn lemma_flatten_uniform(rows: Seq<Seq<u8>>, w: int)
    requires
        w >= 0,
        forall|i: int| 0 <= i < rows.len() ==> #[trigger] rows[i].len() == w,
    ensures
        rows.flatten().len() == rows.len() * w,
        forall|j: int|
            0 <= j < rows.len() ==> #[trigger] rows.flatten().subrange(j * w, (j + 1) * w)
                == rows[j],
    decreases rows.len(),
{
    if rows.len() == 0 {
        assert(rows.flatten().len() == 0);
    } else {
        let rest = rows.drop_first();
        assert forall|i: int| 0 <= i < rest.len() implies #[trigger] rest[i].len() == w by {
            assert(rest[i] == rows[i + 1]);
        }
        lemma_flatten_uniform(rest, w);
        assert(rows.flatten() == rows[0] + rest.flatten());
        assert(rows.len() * w == (rest.len() * w) + w) by (nonlinear_arith)
            requires
                rows.len() == rest.len() + 1,
        ;
        assert(rows.flatten().len() == rows.len() * w);
        assert forall|j: int|
            0 <= j < rows.len() implies #[trigger] rows.flatten().subrange(j * w, (j + 1) * w)
            == rows[j] by {
            if j == 0 {
                assert(rows.flatten().len() >= w);
                assert(j * w == 0 && (j + 1) * w == w) by (nonlinear_arith)
                    requires
                        j == 0,
                ;
                assert(rows.flatten().subrange(0, w) =~= rows[0]);
                assert(rows.flatten().subrange(j * w, (j + 1) * w) == rows[j]);
            } else {
                assert(j * w >= w && (j + 1) * w >= w) by (nonlinear_arith)
                    requires
                        j >= 1,
                        w >= 0,
                ;
                assert((j - 1) * w == j * w - w) by (nonlinear_arith);
                assert(j * w <= rest.len() * w && (j + 1) * w <= rest.len() * w + w)
                    by (nonlinear_arith)
                    requires
                        j < rows.len(),
                        rows.len() == rest.len() + 1,
                        w >= 0,
                ;
                assert(rest.flatten().subrange(j * w - w, j * w) == rest[j - 1]);
                assert((j + 1) * w == j * w + w) by (nonlinear_arith);
                assert(j * w <= rest.flatten().len() && (j + 1) * w <= rows.flatten().len());
                let lhs = rows.flatten().subrange(j * w, (j + 1) * w);
                let rhs = rest.flatten().subrange(j * w - w, j * w);
                assert(lhs.len() == w);
                assert(rhs.len() == w);
                assert forall|t: int| 0 <= t < w implies #[trigger] lhs[t] == rhs[t] by {
                    assert(lhs[t] == rows.flatten()[j * w + t]);
                    assert(rhs[t] == rest.flatten()[j * w - w + t]);
                    assert((rows[0] + rest.flatten())[j * w + t] == rest.flatten()[
                        j * w + t - w
                    ]);
                    assert(j * w - w + t == j * w + t - w);
                }
                assert(lhs =~= rhs);
                assert(rest[j - 1] == rows[j]);
                assert(rows.flatten().subrange(j * w, (j + 1) * w) == rows[j]);
            }
        }
    }
}

/// For every valid request, the output holds exactly one pixel of `out`
/// bytes per accepted line, and output order equals input line order: the
/// buffer's length is `out` times the number of accepted lines, and the
/// j-th accepted line's pixel occupies exactly bytes `[j*out, (j+1)*out)`.
pub proof fn lemma_parse_file_shape(
    s: Seq<u8>,
    fmt: SupportedTextureFormats,
    is_indexed: bool,
    out: nat,
)
    requires
        out == 3 || out == 4,
    ensures
        spec_parse_file(s, fmt, is_indexed, out).len() == out * accepted_count(
            spec_lines(s),
            fmt.spec_indices(),
            fmt.spec_channel_count(),
            is_indexed,
            out,
        ),
        forall|j: int|
            0 <= j < accepted_count(
                spec_lines(s),
                fmt.spec_indices(),
                fmt.spec_channel_count(),
                is_indexed,
                out,
            ) ==> spec_parse_file(s, fmt, is_indexed, out).subrange(
                j * out,
                (j + 1) * out,
            ) == spec_accepted(
                spec_lines(s),
                fmt.spec_indices(),
                fmt.spec_channel_count(),
                is_indexed,
                out,
            )[j],
{
    let acc = spec_accepted(
        spec_lines(s),
        fmt.spec_indices(),
        fmt.spec_channel_count(),
        is_indexed,
        out,
    );
    lemma_accepted_shape(
        spec_lines(s),
        fmt.spec_indices(),
        fmt.spec_channel_count(),
        is_indexed,
        out,
    );
    lemma_flatten_uniform(acc, out as int);
    assert(acc.len() * out == out * acc.len()) by (nonlinear_arith);
}

/// The bytes of `"output-"`.
pub open spec fn filename_prefix() -> Seq<u8> {
    seq![111u8, 117u8, 116u8, 112u8, 117u8, 116u8, 45u8]
}

/// The bytes of `".png"`.
pub open spec fn filename_suffix() -> Seq<u8> {
    seq![46u8, 112u8, 110u8, 103u8]
}

/// One timestamp byte made filename-safe: `:` becomes `-` and `.` becomes
/// `_`.
pub open spec fn replace_stamp_byte(b: u8) -> u8 {
    if b == 58 {
        45
    } else if b == 46 {
        95
    } else {
        b
    }
}

/// The default output filename built from a timestamp: `"output-"`, then the
/// timestamp with its problematic characters replaced, then `".png"`.
pub open spec fn spec_output_filename(stamp: Seq<u8>) -> Seq<u8> {
    filename_prefix() + stamp.map_values(|b: u8| replace_stamp_byte(b)) + filename_suffix()
}

/// Relies on `humantime::format_rfc3339_millis`: whenever it renders, the
/// result is the 24 ASCII bytes `YYYY-MM-DDTHH:MM:SS.mmmZ`.  A clock before
/// the Unix epoch is clamped to the epoch (the formatter rejects earlier
/// times), and if rendering still fails (it does from the year 10000 on)
/// the epoch is rendered instead, which always succeeds.
#[verifier::external_body]
fn rfc3339_millis_now() -> (r: Vec<u8>)
    ensures
        r@.len() == 24,
        r@[4] == 45 && r@[7] == 45 && r@[10] == 84 && r@[13] == 58 && r@[16] == 58 && r@[19] == 46
            && r@[23] == 90,
        forall|i: int|
            0 <= i < 24 && i != 4 && i != 7 && i != 10 && i != 13 && i != 16 && i != 19 && i != 23
                ==> 48 <= #[trigger] r@[i] <= 57,
{
    let now = std::time::SystemTime::now();
    let safe = match now.duration_since(std::time::UNIX_EPOCH) {
        Ok(_) => now,
        Err(_) => std::time::UNIX_EPOCH,
    };
    let mut s = String::new();
    if write!(&mut s, "{}", humantime::format_rfc3339_millis(safe)).is_err() {
        s.clear();
        write!(&mut s, "{}", humantime::format_rfc3339_millis(std::time::UNIX_EPOCH)).ok();
    }
    s.into_bytes()
}

/// Build the default output filename from a rendered timestamp, as
/// `spec_output_filename` describes.
#[verifier::loop_isolation(false)]
pub fn make_output_filename(stamp: &[u8]) -> (r: String)
    requires
        forall|i: int| 0 <= i < stamp@.len() ==> #[trigger] stamp@[i] < 128,
    ensures
        r@ == ascii_view(spec_output_filename(stamp@)),
{
    let mut buf: Vec<u8> = Vec::new();
    // "output-"
    buf.push(111);
    buf.push(117);
    buf.push(116);
    buf.push(112);
    buf.push(117);
    buf.push(116);
    buf.push(45);
    proof {
        assert(buf@ =~= filename_prefix());
        assert(stamp@.take(0).map_values(|b: u8| replace_stamp_byte(b)) =~= Seq::<u8>::empty());
    }
    let n = stamp.len();
    let mut i: usize = 0;
    while i < n
        invariant
            0 <= i <= n,
            buf@ == filename_prefix() + stamp@.take(i as int).map_values(
                |b: u8| replace_stamp_byte(b),
            ),
        decreases n - i,
    {
        let b = stamp[i];
        let rb: u8 = if b == 58 {
            45
        } else if b == 46 {
            95
        } else {
            b
        };
        buf.push(rb);
        proof {
            assert(stamp@.take(i as int + 1).map_values(|b: u8| replace_stamp_byte(b)) =~= stamp@
                .take(i as int).map_values(|b: u8| replace_stamp_byte(b)).push(
                replace_stamp_byte(stamp@[i as int]),
            ));
            assert(buf@ =~= filename_prefix() + stamp@.take(i as int + 1).map_values(
                |b: u8| replace_stamp_byte(b),
            ));
        }
        i = i + 1;
    }
    // ".png"
    buf.push(46);
    buf.push(112);
    buf.push(110);
    buf.push(103);
    proof {
        assert(stamp@.take(n as int) =~= stamp@);
        assert(buf@ =~= spec_output_filename(stamp@));
        assert forall|k: int| 0 <= k < buf@.len() implies buf@[k] < 128 by {
            let m = stamp@.map_values(|b: u8| replace_stamp_byte(b));
            if 7 <= k < 7 + stamp@.len() {
                assert(buf@[k] == m[k - 7]);
                assert(m[k - 7] == replace_stamp_byte(stamp@[k - 7]));
            }
        }
    }
    ascii_bytes_to_string(buf)
}

/// The default output filename for this moment: `"output-"`, an RFC 3339
/// UTC timestamp with millisecond precision whose colons become dashes and
/// whose dots become underscores, then `".png"`.  Of every outcome this
/// holds: the name is 35 characters, starts with `"output-"`, ends with
/// `".png"`, and between the two the timestamp's separators sit at their
/// fixed places with decimal digits everywhere else.
pub fn generate_timestamped_filename() -> (r: String)
    ensures
        r@.len() == 35,
        r@.subrange(0, 7) == "output-"@,
        r@.subrange(31, 35) == ".png"@,
        r@[11] == '-' && r@[14] == '-' && r@[17] == 'T' && r@[20] == '-' && r@[23] == '-' && r@[26]
            == '_' && r@[30] == 'Z',
        forall|i: int|
            7 <= i < 31 && i != 11 && i != 14 && i != 17 && i != 20 && i != 23 && i != 26 && i
                != 30 ==> (48 <= #[trigger] r@[i] as int && r@[i] as int <= 57),
{
    let stamp = rfc3339_millis_now();
    let r = make_output_filename(stamp.as_slice());
    proof {
        reveal_strlit("output-");
        reveal_strlit(".png");
        let full = spec_output_filename(stamp@);
        let m = stamp@.map_values(|b: u8| replace_stamp_byte(b));
        assert(full.len() == 35);
        assert(r@.subrange(0, 7) =~= "output-"@);
        assert(r@.subrange(31, 35) =~= ".png"@);
        assert forall|i: int| 7 <= i < 31 implies r@[i] == replace_stamp_byte(stamp@[i - 7]) as char
            by {
            assert(full[i] == m[i - 7]);
            assert(m[i - 7] == replace_stamp_byte(stamp@[i - 7]));
            assert(r@[i] == full[i] as char);
        }
    }
    r
}

} // verus!
