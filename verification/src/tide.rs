use vstd::prelude::*;
use crate::cursor::{ByteCursor, Cur, Reader, counted_list, records_from, records_progress, lemma_records_step,
    lemma_records_fail, lemma_records_done, rd_u8, rd_u16, rd_u32, rd_u64};
use crate::error::{ParseError, ParseResult};
use crate::model::{TideWindow, Timestamp, sat_add64, supports_draught_spec, tide_overlaps};
use crate::sort::{SortKey, lemma_sorted_with_by, sort_with_keys, sorted_with};

verus! {

/// Reading one tide window: basin, start, duration (the end is the start plus the duration,
/// saturated), minimum depth, maximum current, direction and confidence.
pub open spec fn rd_tide(c: Cur) -> (Result<TideWindow, ParseError>, Cur) {
    match rd_u16(c) {
        (Err(e), c1) => (Err(e), c1),
        (Ok(basin_code), c1) => match rd_u64(c1) {
            (Err(e), c2) => (Err(e), c2),
            (Ok(start), c2) => match rd_u32(c2) {
                (Err(e), c3) => (Err(e), c3),
                (Ok(duration), c3) => match rd_u16(c3) {
                    (Err(e), c4) => (Err(e), c4),
                    (Ok(min_depth_cm), c4) => match rd_u16(c4) {
                        (Err(e), c5) => (Err(e), c5),
                        (Ok(max_current_cms), c5) => match rd_u16(c5) {
                            (Err(e), c6) => (Err(e), c6),
                            (Ok(direction_degrees), c6) => match rd_u8(c6) {
                                (Err(e), c7) => (Err(e), c7),
                                (Ok(confidence), c7) => (Ok(TideWindow {
                                    basin_code,
                                    start: Timestamp(start),
                                    end: Timestamp(sat_add64(start, duration as u64)),
                                    min_depth_cm,
                                    max_current_cms,
                                    direction_degrees,
                                    confidence,
                                }), c7),
                            },
                        },
                    },
                },
            },
        },
    }
}

/// The tide window reader.
pub open spec fn tide_reader() -> Reader<TideWindow> {
    |c: Cur| rd_tide(c)
}

/// A list of tide windows: a `u16` count (at most 8192) and the windows.
pub open spec fn tides_spec(data: Seq<u8>, base: usize) -> Result<Seq<TideWindow>, ParseError> {
    counted_list(data, base, 8192, "tide count", tide_reader())
}

/// Reads a list of tide windows.
pub fn parse_tides(data: &[u8], base: usize) -> (r: ParseResult<Vec<TideWindow>>)
    ensures
        match tides_spec(data@, base) {
            Ok(ts) => r matches Ok(v) && v@ == ts,
            Err(e) => r == Err::<Vec<TideWindow>, ParseError>(e),
        },
{
    let mut cursor = ByteCursor::with_base(data, base);
    let count = cursor.read_u16()? as usize;
    if count > 8192 {
        return Err(ParseError::limit(cursor.absolute_position(), "tide count"));
    }
    let ghost c1 = cursor.view();
    let mut tides: Vec<TideWindow> = Vec::new();
    let mut k: usize = 0;
    while k < count
        invariant
            0 <= k <= count,
            cursor.wf(),
            tides_spec(data@, base) == records_from(c1, count as nat, tide_reader()),
            records_progress(c1, count as nat, tide_reader(), tides@, cursor.view(), (count - k) as nat),
        decreases count - k,
    {
        let ghost before = cursor.view();
        let t = match parse_tide(&mut cursor) {
            Ok(t) => t,
            Err(e) => {
                proof { lemma_records_fail(c1, count as nat, tide_reader(), tides@, before, (count - k) as nat); }
                return Err(e);
            },
        };
        proof { lemma_records_step(c1, count as nat, tide_reader(), tides@, before, (count - k) as nat); }
        tides.push(t);
        k = k + 1;
    }
    proof { lemma_records_done(c1, count as nat, tide_reader(), tides@, cursor.view()); }
    Ok(tides)
}

/// Reads one tide window.
pub fn parse_tide(cursor: &mut ByteCursor<'_>) -> (r: ParseResult<TideWindow>)
    ensures
        ({
            let (sr, c) = rd_tide(old(cursor).view());
            &&& final(cursor).view() == c
            &&& final(cursor).wf()
            &&& sr == r
        }),
{
    let basin_code = cursor.read_u16()?;
    let start = Timestamp(cursor.read_u64()?);
    let duration = cursor.read_u32()? as u64;
    let min_depth_cm = cursor.read_u16()?;
    let max_current_cms = cursor.read_u16()?;
    let direction_degrees = cursor.read_u16()?;
    let confidence = cursor.read_u8()?;
    Ok(TideWindow {
        basin_code,
        start,
        end: start.saturating_add(duration),
        min_depth_cm,
        max_current_cms,
        direction_degrees,
        confidence,
    })
}

/// A window of the basin that meets `[earliest, latest)` with enough water for the draught.
pub open spec fn tide_candidate(t: TideWindow, basin_code: u16, earliest: Timestamp, latest: Timestamp, draught_cm: u16) -> bool {
    t.basin_code == basin_code && tide_overlaps(t, earliest, latest) && supports_draught_spec(t, draught_cm)
}

/// `a` ranks at least as high as `b`: by confidence, then by minimum depth.
pub open spec fn ranks_at_least(a: TideWindow, b: TideWindow) -> bool {
    a.confidence > b.confidence || (a.confidence == b.confidence && a.min_depth_cm >= b.min_depth_cm)
}

/// The highest-ranked candidate of `s`, the last one among equals.
pub open spec fn best_spec(s: Seq<TideWindow>, basin_code: u16, earliest: Timestamp, latest: Timestamp, draught_cm: u16) -> Option<TideWindow>
    decreases s.len(),
{
    if s.len() == 0 {
        None
    } else {
        let b = best_spec(s.drop_last(), basin_code, earliest, latest, draught_cm);
        let t = s.last();
        if tide_candidate(t, basin_code, earliest, latest, draught_cm) && (b is None || ranks_at_least(t, b->Some_0)) {
            Some(t)
        } else {
            b
        }
    }
}

/// The best window is missing exactly when no window qualifies; otherwise it is one of the
/// windows, it qualifies, and it ranks at least as high as every window that qualifies.
pub proof fn lemma_best_is_maximal(s: Seq<TideWindow>, basin_code: u16, earliest: Timestamp, latest: Timestamp, draught_cm: u16)
    ensures
        best_spec(s, basin_code, earliest, latest, draught_cm) is None
            <==> forall|i: int| 0 <= i < s.len() ==> !tide_candidate(#[trigger] s[i], basin_code, earliest, latest, draught_cm),
        best_spec(s, basin_code, earliest, latest, draught_cm) matches Some(b) ==> {
            &&& s.contains(b)
            &&& tide_candidate(b, basin_code, earliest, latest, draught_cm)
            &&& forall|i: int| 0 <= i < s.len() && tide_candidate(#[trigger] s[i], basin_code, earliest, latest, draught_cm)
                ==> ranks_at_least(b, s[i])
        },
    decreases s.len(),
{
    if s.len() > 0 {
        let d = s.drop_last();
        let t = s.last();
        let n = s.len() - 1;
        lemma_best_is_maximal(d, basin_code, earliest, latest, draught_cm);
        assert forall|i: int| 0 <= i < d.len() implies #[trigger] d[i] == s[i] by {}
        assert(s[n] == t);
        let bd = best_spec(d, basin_code, earliest, latest, draught_cm);
        let ct = tide_candidate(t, basin_code, earliest, latest, draught_cm);
        if ct && (bd is None || ranks_at_least(t, bd->Some_0)) {
            assert(s.contains(t));
            assert forall|i: int| 0 <= i < s.len() && tide_candidate(#[trigger] s[i], basin_code, earliest, latest, draught_cm)
                implies ranks_at_least(t, s[i]) by {
                if i < n {
                    assert(tide_candidate(d[i], basin_code, earliest, latest, draught_cm));
                }
            }
        } else {
            match bd {
                None => {
                    assert forall|i: int| 0 <= i < s.len() implies !tide_candidate(#[trigger] s[i], basin_code, earliest, latest, draught_cm) by {
                        if i < n { assert(!tide_candidate(d[i], basin_code, earliest, latest, draught_cm)); }
                    }
                },
                Some(b) => {
                    let k = choose|k: int| 0 <= k < d.len() && d[k] == b;
                    assert(s[k] == b);
                    assert(s.contains(b));
                    assert forall|i: int| 0 <= i < s.len() && tide_candidate(#[trigger] s[i], basin_code, earliest, latest, draught_cm)
                        implies ranks_at_least(b, s[i]) by {
                        if i < n {
                            assert(tide_candidate(d[i], basin_code, earliest, latest, draught_cm));
                        }
                    }
                    assert(tide_candidate(s[k], basin_code, earliest, latest, draught_cm));
                },
            }
        }
    }
}

/// The best window of a basin for a vessel of the given draught within `[earliest, latest)`.
pub fn best_window(
    tides: &[TideWindow],
    basin_code: u16,
    earliest: Timestamp,
    latest: Timestamp,
    draught_cm: u16,
) -> (r: Option<&TideWindow>)
    ensures
        match best_spec(tides@, basin_code, earliest, latest, draught_cm) {
            Some(t) => r matches Some(x) && *x == t,
            None => r is None,
        },
{
    let mut best: Option<&TideWindow> = None;
    let mut i: usize = 0;
    while i < tides.len()
        invariant
            0 <= i <= tides@.len(),
            match best_spec(tides@.take(i as int), basin_code, earliest, latest, draught_cm) {
                Some(t) => best matches Some(x) && *x == t,
                None => best is None,
            },
        decreases tides@.len() - i,
    {
        proof { assert(tides@.take(i + 1).drop_last() =~= tides@.take(i as int)); }
        let t = &tides[i];
        if t.basin_code == basin_code && t.overlaps(earliest, latest) && t.supports_draught(draught_cm) {
            let better = match best {
                None => true,
                Some(b) => t.confidence > b.confidence || (t.confidence == b.confidence && t.min_depth_cm >= b.min_depth_cm),
            };
            if better {
                best = Some(t);
            }
        }
        i = i + 1;
    }
    proof { assert(tides@.take(i as int) =~= tides@); }
    best
}

/// A window's place in merge order: basin, start, end.
pub open spec fn merge_key() -> spec_fn(TideWindow) -> SortKey {
    |t: TideWindow| (t.basin_code as u64, t.start.0, t.end.0)
}

/// Merge order as sort keys.
pub open spec fn merge_keys(s: Seq<TideWindow>) -> Seq<SortKey> {
    s.map_values(merge_key())
}

/// `t` continues `last`: same basin and depth, starting no later than `last` ends.
pub open spec fn tide_continues(last: TideWindow, t: TideWindow) -> bool {
    last.basin_code == t.basin_code && last.end.0 >= t.start.0 && last.min_depth_cm == t.min_depth_cm
}

/// `last` extended by `t`: the later end and the higher confidence.
pub open spec fn tide_joined(last: TideWindow, t: TideWindow) -> TideWindow {
    TideWindow {
        end: Timestamp(if last.end.0 >= t.end.0 { last.end.0 } else { t.end.0 }),
        confidence: if last.confidence >= t.confidence { last.confidence } else { t.confidence },
        ..last
    }
}

/// `s` with each window that continues the one kept before it joined into that one.
pub open spec fn join_tides(s: Seq<TideWindow>) -> Seq<TideWindow>
    decreases s.len(),
{
    if s.len() == 0 {
        s
    } else {
        let d = join_tides(s.drop_last());
        if d.len() > 0 && tide_continues(d.last(), s.last()) {
            d.update(d.len() - 1, tide_joined(d.last(), s.last()))
        } else {
            d.push(s.last())
        }
    }
}

/// `a` comes no later than `b` by basin and then start.
pub open spec fn basin_start_le(a: TideWindow, b: TideWindow) -> bool {
    a.basin_code < b.basin_code || (a.basin_code == b.basin_code && a.start.0 <= b.start.0)
}

/// `o` covers `w`: same basin and depth, starting no later and ending no earlier.
pub open spec fn covers_tide(o: TideWindow, w: TideWindow) -> bool {
    o.basin_code == w.basin_code && o.min_depth_cm == w.min_depth_cm && o.start.0 <= w.start.0 && w.end.0 <= o.end.0
}

/// Joining windows in basin and start order keeps that order, none after the last window;
/// joining never changes a window's basin, depth or start.
proof fn lemma_join_tides_sorted(r: Seq<TideWindow>)
    requires forall|i: int, j: int| 0 <= i < j < r.len() ==> basin_start_le(#[trigger] r[i], #[trigger] r[j]),
    ensures
        join_tides(r).len() <= r.len(),
        r.len() > 0 ==> join_tides(r).len() > 0,
        forall|i: int, j: int| 0 <= i < j < join_tides(r).len() ==> basin_start_le(#[trigger] join_tides(r)[i], #[trigger] join_tides(r)[j]),
        r.len() > 0 ==> forall|i: int| 0 <= i < join_tides(r).len() ==> basin_start_le(#[trigger] join_tides(r)[i], r.last()),
    decreases r.len(),
{
    if r.len() > 0 {
        let p = r.drop_last();
        let t = r.last();
        assert forall|i: int, j: int| 0 <= i < j < p.len() implies basin_start_le(#[trigger] p[i], #[trigger] p[j]) by {
            assert(p[i] == r[i] && p[j] == r[j]);
        }
        lemma_join_tides_sorted(p);
        let d = join_tides(p);
        let n = join_tides(r);
        if p.len() > 0 {
            assert(p.last() == r[r.len() - 2]);
            assert(basin_start_le(r[r.len() - 2], r[r.len() - 1]));
        }
        if d.len() > 0 && tide_continues(d.last(), t) {
            let m = d.len() - 1;
            assert(n == d.update(m, tide_joined(d.last(), t)));
            assert forall|i: int, j: int| 0 <= i < j < n.len() implies basin_start_le(#[trigger] n[i], #[trigger] n[j]) by {
                assert(n[i].basin_code == d[i].basin_code && n[i].start == d[i].start);
                assert(n[j].basin_code == d[j].basin_code && n[j].start == d[j].start);
            }
            assert forall|i: int| 0 <= i < n.len() implies basin_start_le(#[trigger] n[i], t) by {
                assert(n[i].basin_code == d[i].basin_code && n[i].start == d[i].start);
            }
        } else {
            assert(n == d.push(t));
            assert forall|i: int, j: int| 0 <= i < j < n.len() implies basin_start_le(#[trigger] n[i], #[trigger] n[j]) by {
                assert(n[i] == d[i]);
                if j < d.len() { assert(n[j] == d[j]); }
            }
            assert forall|i: int| 0 <= i < n.len() implies basin_start_le(#[trigger] n[i], t) by {
                if i < d.len() { assert(n[i] == d[i]); }
            }
        }
    }
}

/// Joining windows in basin and start order covers every window.
proof fn lemma_join_tides_covers(r: Seq<TideWindow>)
    requires forall|i: int, j: int| 0 <= i < j < r.len() ==> basin_start_le(#[trigger] r[i], #[trigger] r[j]),
    ensures forall|k: int| 0 <= k < r.len() ==> exists|i: int| 0 <= i < join_tides(r).len()
        && covers_tide(#[trigger] join_tides(r)[i], #[trigger] r[k]),
    decreases r.len(),
{
    if r.len() > 0 {
        let p = r.drop_last();
        let t = r.last();
        assert forall|i: int, j: int| 0 <= i < j < p.len() implies basin_start_le(#[trigger] p[i], #[trigger] p[j]) by {
            assert(p[i] == r[i] && p[j] == r[j]);
        }
        lemma_join_tides_covers(p);
        lemma_join_tides_sorted(p);
        let d = join_tides(p);
        let n = join_tides(r);
        if p.len() > 0 {
            assert(p.last() == r[r.len() - 2]);
            assert(basin_start_le(r[r.len() - 2], r[r.len() - 1]));
        }
        if d.len() > 0 && tide_continues(d.last(), t) {
            let m = d.len() - 1;
            assert(n == d.update(m, tide_joined(d.last(), t)));
            assert(basin_start_le(d[m], p.last()));
            assert(covers_tide(n[m], t));
            assert forall|k: int| 0 <= k < r.len() implies exists|i: int| 0 <= i < n.len() && covers_tide(#[trigger] n[i], #[trigger] r[k]) by {
                if k < p.len() {
                    assert(r[k] == p[k]);
                    let i = choose|i: int| 0 <= i < d.len() && covers_tide(#[trigger] d[i], #[trigger] p[k]);
                    if i == m { assert(covers_tide(n[m], p[k])); } else { assert(n[i] == d[i]); }
                } else {
                    assert(r[k] == t);
                }
            }
        } else {
            assert(n == d.push(t));
            assert forall|k: int| 0 <= k < r.len() implies exists|i: int| 0 <= i < n.len() && covers_tide(#[trigger] n[i], #[trigger] r[k]) by {
                if k < p.len() {
                    assert(r[k] == p[k]);
                    let i = choose|i: int| 0 <= i < d.len() && covers_tide(#[trigger] d[i], #[trigger] p[k]);
                    assert(n[i] == d[i]);
                } else {
                    assert(covers_tide(n[n.len() - 1], r[k]));
                }
            }
        }
    }
}

/// After joining, no window continues the one before it.
proof fn lemma_join_tides_apart(r: Seq<TideWindow>)
    ensures forall|i: int, j: int| 0 <= i && j == i + 1 && j < join_tides(r).len()
        ==> !tide_continues(#[trigger] join_tides(r)[i], #[trigger] join_tides(r)[j]),
    decreases r.len(),
{
    if r.len() > 0 {
        let p = r.drop_last();
        let t = r.last();
        lemma_join_tides_apart(p);
        let d = join_tides(p);
        let n = join_tides(r);
        if d.len() > 0 && tide_continues(d.last(), t) {
            let m = d.len() - 1;
            assert(n == d.update(m, tide_joined(d.last(), t)));
            assert forall|i: int, j: int| 0 <= i && j == i + 1 && j < n.len()
                implies !tide_continues(#[trigger] n[i], #[trigger] n[j]) by {
                assert(n[i] == d[i]);
                assert(n[j].basin_code == d[j].basin_code && n[j].start == d[j].start && n[j].min_depth_cm == d[j].min_depth_cm);
                assert(!tide_continues(d[i], d[j]));
            }
        } else {
            assert(n == d.push(t));
            assert forall|i: int, j: int| 0 <= i && j == i + 1 && j < n.len()
                implies !tide_continues(#[trigger] n[i], #[trigger] n[j]) by {
                assert(n[i] == d[i]);
                if j < d.len() { assert(n[j] == d[j]); assert(!tide_continues(d[i], d[j])); }
            }
        }
    }
}

/// Merging windows gives windows in basin and start order, no more of them than were given,
/// no window continuing the one before it, and for every window given one that covers it
/// (same basin and depth, starting no later, ending no earlier).
pub proof fn lemma_merge_adjacent(tides: Seq<TideWindow>)
    ensures ({
        let out = join_tides(sorted_with(merge_keys(tides), tides));
        &&& out.len() <= tides.len()
        &&& forall|i: int, j: int| 0 <= i < j < out.len() ==> basin_start_le(#[trigger] out[i], #[trigger] out[j])
        &&& forall|i: int, j: int| 0 <= i && j == i + 1 && j < out.len() ==> !tide_continues(#[trigger] out[i], #[trigger] out[j])
        &&& forall|k: int| 0 <= k < tides.len() ==> exists|i: int| 0 <= i < out.len()
            && covers_tide(#[trigger] out[i], #[trigger] tides[k])
    }),
{
    let r = sorted_with(merge_keys(tides), tides);
    lemma_sorted_with_by(tides, merge_key());
    assert forall|i: int, j: int| 0 <= i < j < r.len() implies basin_start_le(#[trigger] r[i], #[trigger] r[j]) by {
        assert(crate::sort::key_le(merge_key()(r[i]), merge_key()(r[j])));
    }
    lemma_join_tides_sorted(r);
    lemma_join_tides_covers(r);
    lemma_join_tides_apart(r);
    let out = join_tides(r);
    assert forall|k: int| 0 <= k < tides.len() implies exists|i: int| 0 <= i < out.len()
        && covers_tide(#[trigger] out[i], #[trigger] tides[k]) by {
        assert(r.contains(tides[k]));
        let m = choose|m: int| 0 <= m < r.len() && r[m] == tides[k];
        let i = choose|i: int| 0 <= i < out.len() && covers_tide(#[trigger] out[i], #[trigger] r[m]);
    }
}

/// Sorts windows by basin, start and end (stably) and joins windows that continue each other.
pub fn merge_adjacent(tides: Vec<TideWindow>) -> (r: Vec<TideWindow>)
    ensures r@ == join_tides(sorted_with(merge_keys(tides@), tides@)),
{
    let mut keys: Vec<SortKey> = Vec::new();
    let mut i: usize = 0;
    while i < tides.len()
        invariant
            0 <= i <= tides@.len(),
            keys@ =~= merge_keys(tides@).take(i as int),
        decreases tides@.len() - i,
    {
        keys.push((tides[i].basin_code as u64, tides[i].start.0, tides[i].end.0));
        i = i + 1;
        proof { assert(keys@ =~= merge_keys(tides@).take(i as int)); }
    }
    proof { assert(merge_keys(tides@).take(i as int) =~= merge_keys(tides@)); }
    let sorted = sort_with_keys(tides, keys);
    let mut out: Vec<TideWindow> = Vec::new();
    let mut j: usize = 0;
    while j < sorted.len()
        invariant
            0 <= j <= sorted@.len(),
            out@ == join_tides(sorted@.take(j as int)),
        decreases sorted@.len() - j,
    {
        proof { assert(sorted@.take(j + 1).drop_last() =~= sorted@.take(j as int)); }
        let tide = sorted[j];
        let n = out.len();
        if n > 0 && out[n - 1].basin_code == tide.basin_code && out[n - 1].end.0 >= tide.start.0
            && out[n - 1].min_depth_cm == tide.min_depth_cm {
            let mut last = out[n - 1];
            if tide.end.0 > last.end.0 {
                last.end = Timestamp(tide.end.0);
            }
            if tide.confidence > last.confidence {
                last.confidence = tide.confidence;
            }
            out.set(n - 1, last);
        } else {
            out.push(tide);
        }
        j = j + 1;
    }
    proof { assert(sorted@.take(j as int) =~= sorted@); }
    out
}

} // verus!
