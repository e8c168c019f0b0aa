use vstd::prelude::*;
use crate::analyzer::HarborReport;
use crate::dictionary::is_control;
use crate::model::{Finding, FindingSeverity, FindingView, finding_view, finding_views, severity_weight, vessel_text};
use crate::sort::{SortKey, sort_with_keys, sorted_with, lemma_sorted_with_map};
use crate::text::{dec_text, push_dec, push_str, str_chars, string_from_chars};

verus! {

/// The lowercase label of a severity.
pub open spec fn label_of(s: FindingSeverity) -> &'static str {
    match s {
        FindingSeverity::Info => "info",
        FindingSeverity::Low => "low",
        FindingSeverity::Medium => "medium",
        FindingSeverity::High => "high",
        FindingSeverity::Critical => "critical",
    }
}

/// The lowercase label of a severity.
pub fn severity_label(severity: &FindingSeverity) -> (l: &'static str)
    ensures l == label_of(*severity),
{
    match severity {
        FindingSeverity::Info => "info",
        FindingSeverity::Low => "low",
        FindingSeverity::Medium => "medium",
        FindingSeverity::High => "high",
        FindingSeverity::Critical => "critical",
    }
}

/// A finding on one line: `[label] code vessel=V… detail`, with `-` for no vessel.
pub open spec fn finding_line(f: FindingView) -> Seq<char> {
    "["@ + label_of(f.severity)@ + "] "@ + f.code@ + " vessel="@
        + match f.vessel { Some(id) => vessel_text(id), None => "-"@ } + " "@ + f.detail
}

/// A finding on one line.
pub fn render_finding(finding: &Finding) -> (s: String)
    ensures s@ == finding_line(finding_view(*finding)),
{
    let mut t: Vec<char> = Vec::new();
    push_str(&mut t, "[");
    push_str(&mut t, severity_label(&finding.severity));
    push_str(&mut t, "] ");
    push_str(&mut t, finding.code);
    push_str(&mut t, " vessel=");
    match finding.vessel {
        Some(id) => {
            let v = id.to_text();
            push_str(&mut t, v.as_str());
        },
        None => {
            push_str(&mut t, "-");
        },
    }
    push_str(&mut t, " ");
    push_str(&mut t, finding.detail.as_str());
    proof { assert(t@ =~= finding_line(finding_view(*finding))); }
    string_from_chars(t)
}

/// One line per finding.
pub open spec fn finding_lines(fs: Seq<FindingView>) -> Seq<char>
    decreases fs.len(),
{
    if fs.len() == 0 { Seq::empty() } else { finding_lines(fs.drop_last()) + finding_line(fs.last()) + "\n"@ }
}

/// The text report: a title, the stream id, event count, risk score, frame and section
/// counts, the compression ratio as given, then a line per finding.
pub open spec fn report_text(stream_id: u16, events: usize, risk: u32, frames: usize, sections: usize, ratio: Seq<char>,
    fs: Seq<FindingView>) -> Seq<char>
{
    "PortWatch report\n"@ + "================\n"@
        + "stream: "@ + dec_text(stream_id as nat) + "\n"@
        + "events: "@ + dec_text(events as nat) + "\n"@
        + "risk: "@ + dec_text(risk as nat) + "\n"@
        + "frames: "@ + dec_text(frames as nat) + "\n"@
        + "sections: "@ + dec_text(sections as nat) + "\n"@
        + "compression ratio: "@ + ratio + "\n"@
        + "\nfindings\n"@ + finding_lines(fs)
}

/// Renders a report as text, with its compression ratio already written out.
pub fn render_text_with_ratio(report: &HarborReport, ratio: &str) -> (s: String)
    ensures
        s@ == report_text(report.stream_id, report.event_count, report.risk_score, report.stats.frames,
            report.stats.sections, ratio@, finding_views(report.findings@)),
{
    let mut t: Vec<char> = Vec::new();
    push_str(&mut t, "PortWatch report\n");
    push_str(&mut t, "================\n");
    push_str(&mut t, "stream: ");
    push_dec(&mut t, report.stream_id as u64);
    push_str(&mut t, "\n");
    push_str(&mut t, "events: ");
    push_dec(&mut t, report.event_count as u64);
    push_str(&mut t, "\n");
    push_str(&mut t, "risk: ");
    push_dec(&mut t, report.risk_score as u64);
    push_str(&mut t, "\n");
    push_str(&mut t, "frames: ");
    push_dec(&mut t, report.stats.frames as u64);
    push_str(&mut t, "\n");
    push_str(&mut t, "sections: ");
    push_dec(&mut t, report.stats.sections as u64);
    push_str(&mut t, "\n");
    push_str(&mut t, "compression ratio: ");
    push_str(&mut t, ratio);
    push_str(&mut t, "\n");
    push_str(&mut t, "\nfindings\n");
    let ghost head = t@;
    let ghost fs = finding_views(report.findings@);
    let mut i: usize = 0;
    while i < report.findings.len()
        invariant
            0 <= i <= report.findings@.len(),
            fs == finding_views(report.findings@),
            t@ == head + finding_lines(fs.take(i as int)),
        decreases report.findings@.len() - i,
    {
        let line = render_finding(&report.findings[i]);
        push_str(&mut t, line.as_str());
        push_str(&mut t, "\n");
        proof {
            assert(fs.take(i + 1).drop_last() =~= fs.take(i as int));
            assert(fs.take(i + 1).last() == finding_view(report.findings@[i as int]));
            assert(t@ =~= head + finding_lines(fs.take(i + 1)));
        }
        i = i + 1;
    }
    proof {
        assert(fs.take(i as int) =~= fs);
        assert(t@ =~= report_text(report.stream_id, report.event_count, report.risk_score, report.stats.frames,
            report.stats.sections, ratio@, fs));
    }
    string_from_chars(t)
}

/// How a character is written inside a quoted string: quote, backslash, newline, carriage
/// return and tab escaped with a backslash, other control characters as a space.
pub open spec fn escape_char(c: char) -> Seq<char> {
    if c == '"' { seq!['\\', '"'] }
    else if c == '\\' { seq!['\\', '\\'] }
    else if c == '\n' { seq!['\\', 'n'] }
    else if c == '\r' { seq!['\\', 'r'] }
    else if c == '\t' { seq!['\\', 't'] }
    else if is_control(c) { seq![' '] }
    else { seq![c] }
}

/// `s` with each character escaped.
pub open spec fn escape_spec(s: Seq<char>) -> Seq<char>
    decreases s.len(),
{
    if s.len() == 0 { Seq::empty() } else { escape_spec(s.drop_last()) + escape_char(s.last()) }
}

/// Escaped text holds no control character.
pub proof fn lemma_escape_no_control(s: Seq<char>)
    ensures forall|i: int| 0 <= i < escape_spec(s).len() ==> !is_control(#[trigger] escape_spec(s)[i]),
    decreases s.len(),
{
    if s.len() > 0 {
        lemma_escape_no_control(s.drop_last());
        let a = escape_spec(s.drop_last());
        let b = escape_char(s.last());
        assert(forall|j: int| 0 <= j < b.len() ==> !is_control(#[trigger] b[j]));
        assert forall|i: int| 0 <= i < escape_spec(s).len() implies !is_control(#[trigger] escape_spec(s)[i]) by {
            if i < a.len() { assert(escape_spec(s)[i] == a[i]); } else { assert(escape_spec(s)[i] == b[i - a.len()]); }
        }
    }
}

/// Escapes the characters of `input` for a quoted string.
pub fn escape(input: &str) -> (s: String)
    ensures s@ == escape_spec(input@),
{
    let v = escape_chars(input);
    string_from_chars(v)
}

fn escape_chars(input: &str) -> (v: Vec<char>)
    ensures v@ == escape_spec(input@),
{
    let chars = str_chars(input);
    let mut out: Vec<char> = Vec::new();
    let mut i: usize = 0;
    while i < chars.len()
        invariant
            0 <= i <= chars@.len(),
            chars@ == input@,
            out@ == escape_spec(chars@.take(i as int)),
        decreases chars@.len() - i,
    {
        proof { assert(chars@.take(i + 1).drop_last() =~= chars@.take(i as int)); }
        let ghost before = out@;
        let ch = chars[i];
        let u = ch as u32;
        if ch == '"' {
            out.push('\\');
            out.push('"');
        } else if ch == '\\' {
            out.push('\\');
            out.push('\\');
        } else if ch == '\n' {
            out.push('\\');
            out.push('n');
        } else if ch == '\r' {
            out.push('\\');
            out.push('r');
        } else if ch == '\t' {
            out.push('\\');
            out.push('t');
        } else if u <= 0x1f || (0x7f <= u && u <= 0x9f) {
            out.push(' ');
        } else {
            out.push(ch);
        }
        proof { assert(out@ =~= before + escape_char(ch)); }
        i = i + 1;
    }
    proof { assert(chars@.take(i as int) =~= chars@); }
    out
}

/// One finding as a JSON-like object.
pub open spec fn finding_json(f: FindingView) -> Seq<char> {
    "{"@ + "\"severity\":\""@ + label_of(f.severity)@ + "\","@
        + "\"code\":\""@ + escape_spec(f.code@) + "\","@
        + match f.vessel { Some(id) => "\"vessel\":\""@ + vessel_text(id) + "\","@, None => "\"vessel\":null,"@ }
        + "\"detail\":\""@ + escape_spec(f.detail) + "\""@ + "}"@
}

/// Findings as JSON-like objects separated by commas.
pub open spec fn findings_json(fs: Seq<FindingView>) -> Seq<char>
    decreases fs.len(),
{
    if fs.len() == 0 {
        Seq::empty()
    } else {
        findings_json(fs.drop_last()) + (if fs.len() > 1 { ","@ } else { Seq::empty() }) + finding_json(fs.last())
    }
}

/// A report as a JSON-like object: stream id, event count, risk score and findings.
pub open spec fn report_json(stream_id: u16, event_count: usize, risk_score: u32, fs: Seq<FindingView>) -> Seq<char> {
    "{"@ + "\"stream_id\":"@ + dec_text(stream_id as nat) + ","@
        + "\"event_count\":"@ + dec_text(event_count as nat) + ","@
        + "\"risk_score\":"@ + dec_text(risk_score as nat) + ","@
        + "\"findings\":["@ + findings_json(fs) + "]}"@
}

/// Appends the characters of `v`.
fn push_chars(out: &mut Vec<char>, v: &Vec<char>)
    ensures final(out)@ == old(out)@ + v@,
{
    let mut k: usize = 0;
    while k < v.len()
        invariant
            0 <= k <= v@.len(),
            out@ == old(out)@ + v@.take(k as int),
        decreases v@.len() - k,
    {
        out.push(v[k]);
        k = k + 1;
        proof { assert(out@ =~= old(out)@ + v@.take(k as int)); }
    }
    proof { assert(v@.take(k as int) =~= v@); }
}

/// Appends one finding as a JSON-like object.
fn push_finding_json(out: &mut Vec<char>, finding: &Finding)
    ensures final(out)@ == old(out)@ + finding_json(finding_view(*finding)),
{
    push_str(out, "{");
    push_str(out, "\"severity\":\"");
    push_str(out, severity_label(&finding.severity));
    push_str(out, "\",");
    push_str(out, "\"code\":\"");
    let code = escape_chars(finding.code);
    push_chars(out, &code);
    push_str(out, "\",");
    match finding.vessel {
        Some(vessel) => {
            push_str(out, "\"vessel\":\"");
            let v = vessel.to_text();
            push_str(out, v.as_str());
            push_str(out, "\",");
        },
        None => {
            push_str(out, "\"vessel\":null,");
        },
    }
    push_str(out, "\"detail\":\"");
    let detail = escape_chars(finding.detail.as_str());
    push_chars(out, &detail);
    push_str(out, "\"");
    push_str(out, "}");
    proof { assert(final(out)@ =~= old(out)@ + finding_json(finding_view(*finding))); }
}

/// A report as a JSON-like object.
pub fn render_jsonish(report: &HarborReport) -> (s: String)
    ensures s@ == report_json(report.stream_id, report.event_count, report.risk_score, finding_views(report.findings@)),
{
    let mut out: Vec<char> = Vec::new();
    push_str(&mut out, "{");
    push_str(&mut out, "\"stream_id\":");
    push_dec(&mut out, report.stream_id as u64);
    push_str(&mut out, ",");
    push_str(&mut out, "\"event_count\":");
    push_dec(&mut out, report.event_count as u64);
    push_str(&mut out, ",");
    push_str(&mut out, "\"risk_score\":");
    push_dec(&mut out, report.risk_score as u64);
    push_str(&mut out, ",");
    push_str(&mut out, "\"findings\":[");
    let ghost head = out@;
    let ghost fs = finding_views(report.findings@);
    let mut idx: usize = 0;
    proof { assert(head + findings_json(fs.take(0)) =~= head); }
    while idx < report.findings.len()
        invariant
            0 <= idx <= report.findings@.len(),
            fs == finding_views(report.findings@),
            out@ == head + findings_json(fs.take(idx as int)),
        decreases report.findings@.len() - idx,
    {
        proof { assert(fs.take(idx + 1).drop_last() =~= fs.take(idx as int)); }
        let ghost before = out@;
        if idx > 0 {
            push_str(&mut out, ",");
        }
        push_finding_json(&mut out, &report.findings[idx]);
        proof {
            let f = fs[idx as int];
            let sep: Seq<char> = if idx > 0 { ","@ } else { Seq::empty() };
            assert(out@ =~= before + sep + finding_json(f));
            assert(fs.take(idx + 1).len() > 1 <==> idx > 0);
            assert(head + findings_json(fs.take(idx as int)) + sep + finding_json(f)
                =~= head + findings_json(fs.take(idx + 1)));
        }
        idx = idx + 1;
    }
    proof { assert(fs.take(idx as int) =~= fs); }
    push_str(&mut out, "]}");
    proof {
        assert(out@ =~= report_json(report.stream_id, report.event_count, report.risk_score, fs));
    }
    string_from_chars(out)
}

/// Heaviest first: the key orders by descending severity weight.
pub open spec fn weight_keys(fs: Seq<FindingView>) -> Seq<SortKey> {
    fs.map_values(|f: FindingView| ((0xffff_ffffu32 - severity_weight(f.severity)) as u64, 0u64, 0u64))
}

/// At most `limit` findings, heaviest first (findings of equal weight in their order).
pub fn top_findings(report: &HarborReport, limit: usize) -> (r: Vec<&Finding>)
    ensures
        ({
            let fs = finding_views(report.findings@);
            let sorted = sorted_with(weight_keys(fs), fs);
            r@.map_values(|x: &Finding| finding_view(*x)) == sorted.take(if limit < sorted.len() { limit as int } else { sorted.len() as int })
        }),
{
    let ghost fs = finding_views(report.findings@);
    let mut refs: Vec<&Finding> = Vec::new();
    let mut keys: Vec<SortKey> = Vec::new();
    let mut i: usize = 0;
    while i < report.findings.len()
        invariant
            0 <= i <= report.findings@.len(),
            fs == finding_views(report.findings@),
            refs@.map_values(|x: &Finding| finding_view(*x)) =~= fs.take(i as int),
            keys@ =~= weight_keys(fs).take(i as int),
        decreases report.findings@.len() - i,
    {
        let f = &report.findings[i];
        let ghost before = refs@;
        refs.push(f);
        proof {
            assert(refs@ == before.push(f));
            assert(finding_view(*f) == fs[i as int]);
            assert(refs@.map_values(|x: &Finding| finding_view(*x))
                =~= before.map_values(|x: &Finding| finding_view(*x)).push(finding_view(*f)));
        }
        let w = f.severity.weight();
        keys.push(((0xffff_ffffu32 - w) as u64, 0u64, 0u64));
        i = i + 1;
        proof {
            assert(refs@.map_values(|x: &Finding| finding_view(*x)) =~= fs.take(i as int));
            assert(keys@ =~= weight_keys(fs).take(i as int));
        }
    }
    proof {
        assert(fs.take(i as int) =~= fs);
        assert(weight_keys(fs).take(i as int) =~= weight_keys(fs));
        lemma_sorted_with_map(keys@, refs@, |x: &Finding| finding_view(*x));
    }
    let mut sorted = sort_with_keys(refs, keys);
    let ghost full = sorted@;
    sorted.truncate(limit);
    proof {
        assert(sorted@.map_values(|x: &Finding| finding_view(*x))
            =~= full.map_values(|x: &Finding| finding_view(*x)).take(sorted@.len() as int));
    }
    sorted
}

} // verus!
