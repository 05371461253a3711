use vstd::prelude::*;
use vstd::string::StringExecFns;

use crate::crawler::Stats;
use crate::text::{decimal, decimal_string};

verus! {

/// One line of the control panel: a highlighted label and the text after it.
pub struct PanelLine {
    pub label: String,
    pub text: String,
}

/// The lines of the control panel's two boxes.
pub struct ControlPanel {
    /// The "process timing" box.
    pub general: Vec<PanelLine>,
    /// The "crawler info" box.
    pub chunks: Vec<PanelLine>,
}

/// A running time of `secs` seconds in hours, minutes and seconds.
pub open spec fn runtime_parts_spec(secs: nat) -> (nat, nat, nat) {
    ((secs / 60) / 60, (secs / 60) % 60, secs % 60)
}

/// The running time as shown: "H h, M m, S s".
pub open spec fn runtime_text(secs: nat) -> Seq<char> {
    let (h, m, s) = runtime_parts_spec(secs);
    decimal(h) + " h, "@ + decimal(m) + " m, "@ + decimal(s) + " s"@
}

/// Splits a running time into hours, minutes and seconds.
pub fn runtime_parts(secs: u64) -> (parts: (u64, u64, u64))
    ensures
        (parts.0 as nat, parts.1 as nat, parts.2 as nat) == runtime_parts_spec(secs as nat),
{
    ((secs / 60) / 60, (secs / 60) % 60, secs % 60)
}

/// Law: the parts of a running time add up to it, with minutes and seconds below 60.
pub proof fn lemma_runtime_parts(secs: nat)
    ensures
        ({
            let (h, m, s) = runtime_parts_spec(secs);
            &&& h * 3600 + m * 60 + s == secs
            &&& m < 60
            &&& s < 60
        }),
{
    let (h, m, s) = runtime_parts_spec(secs);
    let q = secs / 60;
    assert(secs == q * 60 + s) by (nonlinear_arith)
        requires
            q == secs / 60,
            s == secs % 60,
    ;
    assert(q == h * 60 + m) by (nonlinear_arith)
        requires
            h == q / 60,
            m == q % 60,
    ;
    assert(h * 3600 + m * 60 + s == secs) by (nonlinear_arith)
        requires
            secs == q * 60 + s,
            q == h * 60 + m,
    ;
}

/// The "runtime" line for a crawl that has run `secs` seconds.
pub fn general(secs: u64) -> (line: PanelLine)
    ensures
        line.label@ == "runtime : "@,
        line.text@ == runtime_text(secs as nat),
{
    let (h, m, s) = runtime_parts(secs);
    let mut text = decimal_string(h);
    text.append(" h, ");
    let minutes = decimal_string(m);
    text.append(minutes.as_str());
    text.append(" m, ");
    let seconds = decimal_string(s);
    text.append(seconds.as_str());
    text.append(" s");
    PanelLine { label: String::from_str("runtime : "), text }
}

/// The crawler figures as shown, label and text per line.
pub open spec fn chunks_lines(stats: Stats) -> Seq<(Seq<char>, Seq<char>)> {
    seq![
        ("  chunk : "@, decimal(stats.chunk_index as nat) + " / "@ + decimal(stats.chunk_count as nat)),
        ("visited : "@, decimal(stats.visited as nat) + " unique url(s)"@),
        ("indexed : "@, decimal(stats.indexed as nat)),
        ("  depth : "@, decimal(stats.depth as nat)),
        (" status : "@, stats.status.spec_label()),
    ]
}

/// Label and text of a panel line.
pub open spec fn line_view(line: PanelLine) -> (Seq<char>, Seq<char>) {
    (line.label@, line.text@)
}

/// The "crawler info" lines for the figures `stats`.
pub fn chunks(stats: Stats) -> (lines: Vec<PanelLine>)
    ensures
        lines@.map_values(|l: PanelLine| line_view(l)) == chunks_lines(stats),
{
    let mut lines: Vec<PanelLine> = Vec::new();

    let mut chunk = decimal_string(stats.chunk_index as u64);
    chunk.append(" / ");
    let count = decimal_string(stats.chunk_count as u64);
    chunk.append(count.as_str());
    lines.push(PanelLine { label: String::from_str("  chunk : "), text: chunk });

    let mut visited = decimal_string(stats.visited as u64);
    visited.append(" unique url(s)");
    lines.push(PanelLine { label: String::from_str("visited : "), text: visited });

    lines.push(PanelLine { label: String::from_str("indexed : "), text: decimal_string(stats.indexed as u64) });
    lines.push(PanelLine { label: String::from_str("  depth : "), text: decimal_string(stats.depth as u64) });
    lines.push(PanelLine { label: String::from_str(" status : "), text: stats.status.label() });

    proof {
        assert(lines@.map_values(|l: PanelLine| line_view(l)) =~= chunks_lines(stats));
    }
    lines
}

/// The control panel's text for the figures `stats` after `secs` seconds of crawling.
pub fn control_panel(stats: Stats, secs: u64) -> (panel: ControlPanel)
    ensures
        panel.general@.len() == 1,
        line_view(panel.general@[0]) == ("runtime : "@, runtime_text(secs as nat)),
        panel.chunks@.map_values(|l: PanelLine| line_view(l)) == chunks_lines(stats),
{
    let mut general_lines: Vec<PanelLine> = Vec::new();
    general_lines.push(general(secs));
    ControlPanel { general: general_lines, chunks: chunks(stats) }
}

} // verus!
