use vstd::prelude::*;
use vstd::utf8::{valid_utf8, decode_utf8};
use crate::text::{
    split_from, strip_cr, keep_nonempty, trim, split_str, strip_cr_str, trim_str,
};
use crate::number::{is_float_literal, check_float_literal};
use crate::model::Waveform;
use crate::WaveError;

verus! {

// The delimited-text table model. The first non-empty line names the
// channels; every later line contributes, position by position, the fields
// that read as float literals, into the channel its position is named after.
// A channel that never receives a sample is dropped.

/// The non-empty lines of the text, split at newlines, each freed of one
/// trailing carriage return.
pub open spec fn csv_lines(t: Seq<char>) -> Seq<Seq<char>> {
    keep_nonempty(split_from(t, '\n', 0).map_values(|l: Seq<char>| strip_cr(l)))
}

/// The trimmed channel names of the header line, in column order.
pub open spec fn header_names(line: Seq<char>) -> Seq<Seq<char>> {
    split_from(line, ',', 0).map_values(|f: Seq<char>| trim(f))
}

/// What the first `j` columns of one row contribute to channel `name`:
/// the trimmed fields, in column order, that are float literals and stand
/// under a column named `name`.
pub open spec fn row_samples_upto(
    hs: Seq<Seq<char>>,
    fields: Seq<Seq<char>>,
    name: Seq<char>,
    j: int,
) -> Seq<Seq<char>>
    decreases j,
{
    if j <= 0 {
        Seq::empty()
    } else {
        let prev = row_samples_upto(hs, fields, name, j - 1);
        if j - 1 < hs.len() && j - 1 < fields.len() && hs[j - 1] == name && is_float_literal(
            trim(fields[j - 1]),
        ) {
            prev.push(trim(fields[j - 1]))
        } else {
            prev
        }
    }
}

/// What one whole row contributes to channel `name`; fields beyond the
/// header width are ignored, and missing fields contribute nothing.
pub open spec fn row_samples(hs: Seq<Seq<char>>, fields: Seq<Seq<char>>, name: Seq<char>) -> Seq<
    Seq<char>,
> {
    row_samples_upto(hs, fields, name, hs.len() as int)
}

/// The samples of channel `name` accumulated over the first `r` rows.
pub open spec fn samples_upto(
    hs: Seq<Seq<char>>,
    rows: Seq<Seq<Seq<char>>>,
    name: Seq<char>,
    r: int,
) -> Seq<Seq<char>>
    decreases r,
{
    if r <= 0 {
        Seq::empty()
    } else {
        samples_upto(hs, rows, name, r - 1) + row_samples(hs, rows[r - 1], name)
    }
}

/// All samples of channel `name` over all rows.
pub open spec fn channel_samples(
    hs: Seq<Seq<char>>,
    rows: Seq<Seq<Seq<char>>>,
    name: Seq<char>,
) -> Seq<Seq<char>> {
    samples_upto(hs, rows, name, rows.len() as int)
}

/// The waveform a text denotes: each named channel with at least one
/// sample, bound to its samples.
pub open spec fn waveform_of(t: Seq<char>) -> Map<Seq<char>, Seq<Seq<char>>> {
    let lines = csv_lines(t);
    if lines.len() == 0 {
        Map::empty()
    } else {
        let hs = header_names(lines[0]);
        let rows = lines.subrange(1, lines.len() as int).map_values(
            |l: Seq<char>| split_from(l, ',', 0),
        );
        Map::new(
            |name: Seq<char>| hs.contains(name) && channel_samples(hs, rows, name).len() > 0,
            |name: Seq<char>| channel_samples(hs, rows, name),
        )
    }
}

/// The accumulator state after the first `r` rows.
spec fn acc_map(hs: Seq<Seq<char>>, rows: Seq<Seq<Seq<char>>>, r: int) -> Map<
    Seq<char>,
    Seq<Seq<char>>,
> {
    Map::new(|k: Seq<char>| hs.contains(k), |k: Seq<char>| samples_upto(hs, rows, k, r))
}

/// The accumulator state in the middle of row `r`, after `j` of its columns.
spec fn mid_map(
    hs: Seq<Seq<char>>,
    rows: Seq<Seq<Seq<char>>>,
    r: int,
    fields: Seq<Seq<char>>,
    j: int,
) -> Map<Seq<char>, Seq<Seq<char>>> {
    Map::new(
        |k: Seq<char>| hs.contains(k),
        |k: Seq<char>| samples_upto(hs, rows, k, r) + row_samples_upto(hs, fields, k, j),
    )
}

proof fn lemma_contains_take_step(s: Seq<Seq<char>>, i: int)
    requires
        0 <= i < s.len(),
    ensures
        forall|k: Seq<char>|
            #[trigger] s.take(i + 1).contains(k) <==> (s.take(i).contains(k) || k == s[i]),
{
    assert forall|k: Seq<char>|
        #[trigger] s.take(i + 1).contains(k) <==> (s.take(i).contains(k) || k == s[i]) by {
        if s.take(i + 1).contains(k) {
            let idx = choose|idx: int| 0 <= idx < i + 1 && #[trigger] s.take(i + 1)[idx] == k;
            if idx < i {
                assert(s.take(i)[idx] == k);
            } else {
                assert(k == s[i]);
            }
        }
        if s.take(i).contains(k) {
            let idx = choose|idx: int| 0 <= idx < i && #[trigger] s.take(i)[idx] == k;
            assert(s.take(i + 1)[idx] == k);
        }
        if k == s[i] {
            assert(s.take(i + 1)[i] == k);
        }
    }
}

/// Columns beyond the width of the row contribute nothing further.
proof fn lemma_row_samples_trunc(hs: Seq<Seq<char>>, fields: Seq<Seq<char>>, name: Seq<char>, j: int)
    requires
        fields.len() <= j,
    ensures
        row_samples_upto(hs, fields, name, j) == row_samples_upto(
            hs,
            fields,
            name,
            fields.len() as int,
        ),
    decreases j,
{
    if j > fields.len() {
        lemma_row_samples_trunc(hs, fields, name, j - 1);
    }
}

/// Parse decoded text into its waveform.
pub fn parse_text(s: &str) -> (w: Waveform)
    ensures
        w.wf(),
        w@ == waveform_of(s@),
{
    let raw: Vec<&str> = split_str(s, '\n');
    let ghost rdv = raw.deep_view();
    let mut lines: Vec<&str> = Vec::new();
    let mut i: usize = 0;
    while i < raw.len()
        invariant
            0 <= i <= raw@.len(),
            rdv == raw.deep_view(),
            rdv.len() == raw@.len(),
            lines.deep_view() == keep_nonempty(rdv.take(i as int).map_values(|l: Seq<char>| strip_cr(l))),
        decreases raw@.len() - i,
    {
        proof {
            assert(rdv[i as int] == raw@[i as int]@);
        }
        let l = strip_cr_str(raw[i]);
        let ghost prev = lines.deep_view();
        let ghost m = rdv.take(i as int + 1).map_values(|l: Seq<char>| strip_cr(l));
        proof {
            assert(m.drop_last() =~= rdv.take(i as int).map_values(|l: Seq<char>| strip_cr(l)));
            assert(m.last() == strip_cr(rdv[i as int]));
        }
        if l.unicode_len() > 0 {
            lines.push(l);
            proof {
                assert(lines.deep_view() =~= prev.push(l@));
                assert(keep_nonempty(m) == keep_nonempty(m.drop_last()).push(m.last()));
            }
        } else {
            proof {
                assert(keep_nonempty(m) == keep_nonempty(m.drop_last()));
            }
        }
        i = i + 1;
    }
    proof {
        assert(rdv.take(rdv.len() as int) =~= rdv);
        assert(lines.deep_view() == csv_lines(s@));
    }
    let ghost ldv = lines.deep_view();
    if lines.len() == 0 {
        return Waveform::new();
    }
    // Header row: trimmed channel names.
    proof {
        assert(ldv[0] == lines@[0]@);
    }
    let hraw: Vec<&str> = split_str(lines[0], ',');
    let ghost hrdv = hraw.deep_view();
    let mut headers: Vec<&str> = Vec::new();
    let mut i: usize = 0;
    while i < hraw.len()
        invariant
            0 <= i <= hraw@.len(),
            hrdv == hraw.deep_view(),
            hrdv.len() == hraw@.len(),
            headers.deep_view() == hrdv.take(i as int).map_values(|f: Seq<char>| trim(f)),
        decreases hraw@.len() - i,
    {
        proof {
            assert(hrdv[i as int] == hraw@[i as int]@);
        }
        let ghost prev = headers.deep_view();
        let h = trim_str(hraw[i]);
        headers.push(h);
        proof {
            assert(headers.deep_view() =~= prev.push(h@));
            assert(hrdv.take(i as int + 1).map_values(|f: Seq<char>| trim(f)) =~= prev.push(h@));
        }
        i = i + 1;
    }
    proof {
        assert(hrdv.take(hrdv.len() as int) =~= hrdv);
    }
    let ghost hs = headers.deep_view();
    proof {
        assert(hs == header_names(ldv[0]));
    }
    let ghost rows = ldv.subrange(1, ldv.len() as int).map_values(
        |l: Seq<char>| split_from(l, ',', 0),
    );
    // Every named channel starts with no samples.
    let mut w = Waveform::new();
    let mut i: usize = 0;
    while i < headers.len()
        invariant
            0 <= i <= headers@.len(),
            hs == headers.deep_view(),
            hs.len() == headers@.len(),
            w.wf(),
            w@ == Map::new(
                |k: Seq<char>| hs.take(i as int).contains(k),
                |k: Seq<char>| Seq::<Seq<char>>::empty(),
            ),
        decreases headers@.len() - i,
    {
        proof {
            assert(hs[i as int] == headers@[i as int]@);
        }
        let name: String = headers[i].to_owned();
        let empty: Vec<String> = Vec::new();
        proof {
            assert(empty.deep_view() =~= Seq::<Seq<char>>::empty());
        }
        w.insert(name, empty);
        proof {
            lemma_contains_take_step(hs, i as int);
            assert(w@ =~= Map::new(
                |k: Seq<char>| hs.take(i as int + 1).contains(k),
                |k: Seq<char>| Seq::<Seq<char>>::empty(),
            ));
        }
        i = i + 1;
    }
    proof {
        assert(hs.take(hs.len() as int) =~= hs);
        assert forall|k: Seq<char>| hs.contains(k) implies samples_upto(hs, rows, k, 0)
            == Seq::<Seq<char>>::empty() by {}
        assert(w@ =~= acc_map(hs, rows, 0));
    }
    // Data rows.
    let mut r: usize = 1;
    while r < lines.len()
        invariant
            1 <= r <= lines@.len(),
            ldv == lines.deep_view(),
            ldv.len() == lines@.len(),
            hs == headers.deep_view(),
            hs.len() == headers@.len(),
            rows == ldv.subrange(1, ldv.len() as int).map_values(
                |l: Seq<char>| split_from(l, ',', 0),
            ),
            w.wf(),
            w@ == acc_map(hs, rows, r - 1),
        decreases lines@.len() - r,
    {
        proof {
            assert(ldv[r as int] == lines@[r as int]@);
        }
        let fields: Vec<&str> = split_str(lines[r], ',');
        let ghost fdv = fields.deep_view();
        proof {
            assert(rows[r - 1] == split_from(ldv[r as int], ',', 0));
            assert(fdv == rows[r - 1]);
            assert forall|k: Seq<char>| hs.contains(k) implies samples_upto(hs, rows, k, r - 1)
                + row_samples_upto(hs, fdv, k, 0) =~= samples_upto(hs, rows, k, r - 1) by {}
            assert(w@ =~= mid_map(hs, rows, r - 1, fdv, 0));
        }
        let m: usize = if headers.len() < fields.len() {
            headers.len()
        } else {
            fields.len()
        };
        let mut j: usize = 0;
        while j < m
            invariant
                0 <= j <= m,
                m <= headers@.len(),
                m <= fields@.len(),
                m == if hs.len() < fdv.len() { hs.len() } else { fdv.len() },
                hs == headers.deep_view(),
                hs.len() == headers@.len(),
                fdv == fields.deep_view(),
                fdv.len() == fields@.len(),
                w.wf(),
                w@ == mid_map(hs, rows, r - 1, fdv, j as int),
            decreases m - j,
        {
            proof {
                assert(fdv[j as int] == fields@[j as int]@);
                assert(hs[j as int] == headers@[j as int]@);
            }
            let t = trim_str(fields[j]);
            if check_float_literal(t) {
                let ghost before = w@;
                let found = w.append_value(headers[j], t.to_owned());
                proof {
                    assert(hs.contains(hs[j as int]));
                    assert(found);
                    let name = hs[j as int];
                    assert(w@ == before.insert(name, before[name].push(t@)));
                    assert forall|k: Seq<char>| hs.contains(k) implies #[trigger] row_samples_upto(
                        hs,
                        fdv,
                        k,
                        j as int + 1,
                    ) == if k == name {
                        row_samples_upto(hs, fdv, k, j as int).push(trim(fdv[j as int]))
                    } else {
                        row_samples_upto(hs, fdv, k, j as int)
                    } by {}
                    assert(samples_upto(hs, rows, name, r - 1) + row_samples_upto(
                        hs,
                        fdv,
                        name,
                        j as int,
                    ).push(trim(fdv[j as int])) =~= (samples_upto(hs, rows, name, r - 1)
                        + row_samples_upto(hs, fdv, name, j as int)).push(trim(fdv[j as int])));
                    assert(w@ =~= mid_map(hs, rows, r - 1, fdv, j as int + 1));
                }
            } else {
                proof {
                    assert forall|k: Seq<char>| hs.contains(k) implies #[trigger] row_samples_upto(
                        hs,
                        fdv,
                        k,
                        j as int + 1,
                    ) == row_samples_upto(hs, fdv, k, j as int) by {}
                    assert(w@ =~= mid_map(hs, rows, r - 1, fdv, j as int + 1));
                }
            }
            j = j + 1;
        }
        proof {
            assert forall|k: Seq<char>| hs.contains(k) implies samples_upto(hs, rows, k, r - 1)
                + row_samples_upto(hs, fdv, k, m as int) == samples_upto(hs, rows, k, r as int) by {
                if (fdv.len() as int) < hs.len() {
                    lemma_row_samples_trunc(hs, fdv, k, hs.len() as int);
                }
                assert(row_samples_upto(hs, fdv, k, m as int) == row_samples(hs, rows[r - 1], k));
            }
            assert(w@ =~= acc_map(hs, rows, r as int));
        }
        r = r + 1;
    }
    // Channels that never received a sample are dropped.
    w.drop_empty();
    proof {
        assert forall|k: Seq<char>| hs.contains(k) implies samples_upto(hs, rows, k, ldv.len() - 1)
            == channel_samples(hs, rows, k) by {
            assert(rows.len() == ldv.len() - 1);
        }
        assert(w@ =~= waveform_of(s@));
    }
    w
}

/// Relies on core::str::from_utf8: it succeeds exactly on valid UTF-8 and
/// yields the text whose encoding the bytes are.
#[verifier::external_body]
fn utf8_str(bytes: &[u8]) -> (r: Option<&str>)
    ensures
        match r {
            Some(s) => valid_utf8(bytes@) && s@ == decode_utf8(bytes@),
            None => !valid_utf8(bytes@),
        },
{
    core::str::from_utf8(bytes).ok()
}

/// Parse decoded bytes into a waveform; bytes that are not valid text are
/// rejected as a parse failure.
pub fn parse_waveform(bytes: &[u8]) -> (r: Result<Waveform, WaveError>)
    ensures
        match r {
            Ok(w) => valid_utf8(bytes@) && w.wf() && w@ == waveform_of(decode_utf8(bytes@)),
            Err(e) => e == WaveError::Parse && !valid_utf8(bytes@),
        },
{
    match utf8_str(bytes) {
        Some(s) => Ok(parse_text(s)),
        None => Err(WaveError::Parse),
    }
}

/// Every channel of a parsed waveform holds at least one sample: a header
/// under which no field ever read as a float literal is absent.
pub proof fn lemma_empty_channels_absent(t: Seq<char>, name: Seq<char>)
    ensures
        waveform_of(t).dom().contains(name) ==> waveform_of(t)[name].len() > 0,
{
}

/// Parsing is a pure function of its text: two waveforms parsed from the
/// same text are equal, so parsing twice changes nothing.
pub proof fn lemma_parse_idempotent(w1: Waveform, w2: Waveform, t: Seq<char>)
    requires
        w1@ == waveform_of(t),
        w2@ == waveform_of(t),
    ensures
        w1@ == w2@,
{
}

} // verus!
