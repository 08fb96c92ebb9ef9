//! What a run does with each piece of output: pass it on, keep it back, or count it.
use crate::detect::{first_detecting, HeuristicDetector};
use crate::filters::CommandFilterConfig;
use crate::levels::{classify_cleaned, level_of, normalize_log_line, normalized, LineRules};
use crate::outside::{from_utf8_lossy, lossy_text};
use crate::strmap::StringMap;
use crate::tally::{advanced, count_line, counted, no_lines, no_summary, percent_in, push_cleaned, summarize_cleaned, summarized, tail_after, update_progress_from_history, CommandSummary, CompactStats, LineCounts, SummaryCounts};
use crate::text::{lines, split_lines, texts};
use std::collections::VecDeque;
use vstd::prelude::*;
use vstd::utf8::encode_utf8;

verus! {

/// How many of the last lines are kept.
pub const TAIL_LINES: usize = 5;

/// A piece of output that is kept back.
pub struct BufferedChunk {
    pub kind: String,
    pub data: Vec<u8>,
}

/// A record for the log.
pub struct LogRequest {
    pub level: char,
    pub kind: String,
    pub text: String,
}

impl LogRequest {
    /// What the record says.
    pub open spec fn entry(&self) -> (char, Seq<char>, Seq<char>) {
        (self.level, self.kind@, self.text@)
    }
}

/// What the records say.
pub open spec fn entries(v: Seq<LogRequest>) -> Seq<(char, Seq<char>, Seq<char>)> {
    v.map_values(|r: LogRequest| r.entry())
}

/// What the pieces hold.
pub open spec fn pieces(v: Seq<BufferedChunk>) -> Seq<(Seq<char>, Seq<u8>)> {
    v.map_values(|c: BufferedChunk| (c.kind@, c.data@))
}

// ---------------------------------------------------------------------------
// The state of a run

/// What stays the same during a run: the profile of its command, or else the tools that
/// its output may show; how many error lines are shown; and the history of its command.
pub struct CaptureContext {
    pub filter: Option<CommandFilterConfig>,
    pub guesses: bool,
    pub names: Seq<Seq<char>>,
    pub tools: Map<Seq<char>, CommandFilterConfig>,
    pub max_error_lines: int,
    pub history: Option<Map<Seq<char>, i64>>,
}

/// What changes during a run. Output is passed on, or kept back until it is known whether
/// the run is short, or, in a compact run, neither.
#[verifier::ext_equal]
pub struct CaptureModel {
    pub running: bool,
    pub had_output: bool,
    pub passthrough: bool,
    pub buffering: bool,
    pub compact: bool,
    pub buffered: Seq<(Seq<char>, Seq<u8>)>,
    pub choice: Option<Seq<char>>,
    pub tail: Seq<Seq<char>>,
    pub counts: LineCounts,
    pub summary: Option<SummaryCounts>,
}

/// The run as a compact one: nothing is passed on or kept back any more.
pub open spec fn compacted(m: CaptureModel) -> CaptureModel {
    CaptureModel { passthrough: false, buffering: false, compact: true, buffered: Seq::empty(), ..m }
}

/// The tool that a cleaned line shows for the first time.
pub open spec fn found_tool(ctx: CaptureContext, m: CaptureModel, cleaned: Seq<char>) -> Option<Seq<char>> {
    if !ctx.guesses || m.choice is Some || cleaned.len() == 0 {
        None
    } else {
        first_detecting(ctx.names, ctx.tools, cleaned)
    }
}

/// The profile that applies to a line, where `choice` is the tool that the output showed.
pub open spec fn active_filter(ctx: CaptureContext, choice: Option<Seq<char>>) -> Option<CommandFilterConfig> {
    match ctx.filter {
        Some(f) => Some(f),
        None => match choice {
            Some(tool) => Some(ctx.tools[tool]),
            None => None,
        },
    }
}

/// A borrowed profile.
pub open spec fn by_ref(filter: Option<CommandFilterConfig>) -> Option<&'static CommandFilterConfig> {
    match filter {
        Some(f) => Some(&f),
        None => None,
    }
}

/// The tool that the output has shown, with a line that shows `found`.
pub open spec fn choice_after(m: CaptureModel, found: Option<Seq<char>>) -> Option<Seq<char>> {
    if found is Some {
        found
    } else {
        m.choice
    }
}

/// The level of a line.
pub open spec fn line_level(ctx: CaptureContext, m: CaptureModel, line: Seq<char>) -> char {
    let cleaned = normalized(line);
    level_of(cleaned, by_ref(active_filter(ctx, choice_after(m, found_tool(ctx, m, cleaned)))))
}

/// The run after a line of output. A line that shows the tool makes the run a compact one.
pub open spec fn after_line(
    ctx: CaptureContext,
    m: CaptureModel,
    kind: Seq<char>,
    line: Seq<char>,
) -> CaptureModel {
    let cleaned = normalized(line);
    let found = found_tool(ctx, m, cleaned);
    let filter = by_ref(active_filter(ctx, choice_after(m, found)));
    let level = line_level(ctx, m, line);
    let base = if found is Some {
        compacted(m)
    } else {
        m
    };
    CaptureModel {
        choice: choice_after(m, found),
        tail: tail_after(m.tail, kind, cleaned, TAIL_LINES as int),
        counts: counted(advanced(m.counts, percent_in(ctx.history, line)), level, cleaned),
        summary: match m.summary {
            Some(s) => Some(summarized(s, cleaned, level, filter, ctx.max_error_lines)),
            None => None,
        },
        ..base
    }
}

/// The records of a line: the tool, where the line shows it, and the line with its level.
pub open spec fn line_entries(
    ctx: CaptureContext,
    m: CaptureModel,
    kind: Seq<char>,
    line: Seq<char>,
) -> Seq<(char, Seq<char>, Seq<char>)> {
    let marker = match found_tool(ctx, m, normalized(line)) {
        Some(tool) => seq![('U', "FILTER"@, tool)],
        None => Seq::empty(),
    };
    marker.push((line_level(ctx, m, line), kind, line))
}

/// The run after some lines of output.
pub open spec fn after_lines(
    ctx: CaptureContext,
    m: CaptureModel,
    kind: Seq<char>,
    ls: Seq<Seq<char>>,
) -> CaptureModel
    decreases ls.len(),
{
    if ls.len() == 0 {
        m
    } else {
        after_line(ctx, after_lines(ctx, m, kind, ls.drop_last()), kind, ls.last())
    }
}

/// The records of some lines of output.
pub open spec fn lines_entries(
    ctx: CaptureContext,
    m: CaptureModel,
    kind: Seq<char>,
    ls: Seq<Seq<char>>,
) -> Seq<(char, Seq<char>, Seq<char>)>
    decreases ls.len(),
{
    if ls.len() == 0 {
        Seq::empty()
    } else {
        lines_entries(ctx, m, kind, ls.drop_last()) + line_entries(
            ctx,
            after_lines(ctx, m, kind, ls.drop_last()),
            kind,
            ls.last(),
        )
    }
}

/// The run with a piece of output noted, before its lines are looked at.
pub open spec fn with_chunk(m: CaptureModel, kind: Seq<char>, data: Seq<u8>) -> CaptureModel {
    CaptureModel {
        had_output: true,
        buffered: if !m.passthrough && m.buffering {
            m.buffered.push((kind, data))
        } else {
            m.buffered
        },
        ..m
    }
}

impl CaptureModel {
    /// Before a run is compact its output is either passed on or kept back; in a compact
    /// run it is neither. Nothing is kept back that is passed on.
    pub open spec fn wf(self, ctx: CaptureContext) -> bool {
        &&& self.compact ==> !self.passthrough && !self.buffering && self.buffered.len() == 0
        &&& !self.compact ==> self.passthrough != self.buffering
        &&& self.passthrough ==> self.buffered.len() == 0
        &&& self.counts.wf()
        &&& self.tail.len() <= TAIL_LINES
        &&& self.counts.progress matches Some(p) ==> 0 <= p <= 100
        &&& self.summary matches Some(s) ==> {
            &&& 0 <= s.warnings <= self.counts.lines
            &&& 0 <= s.errors <= self.counts.lines
            &&& s.error_lines.len() <= ctx.max_error_lines
        }
        &&& ctx.max_error_lines >= 0
    }
}

/// Every line keeps what holds of a run.
pub proof fn law_lines_keep_the_run_sound(
    ctx: CaptureContext,
    m: CaptureModel,
    kind: Seq<char>,
    ls: Seq<Seq<char>>,
)
    requires
        m.wf(ctx),
    ensures
        after_lines(ctx, m, kind, ls).wf(ctx),
        after_lines(ctx, m, kind, ls).counts.lines == m.counts.lines + ls.len(),
        (after_lines(ctx, m, kind, ls).summary is Some) == (m.summary is Some),
        m.compact ==> after_lines(ctx, m, kind, ls).compact,
        !after_lines(ctx, m, kind, ls).compact ==> after_lines(ctx, m, kind, ls).buffered == m.buffered,
        !after_lines(ctx, m, kind, ls).compact ==> after_lines(ctx, m, kind, ls).passthrough
            == m.passthrough,
    decreases ls.len(),
{
    if ls.len() > 0 {
        law_lines_keep_the_run_sound(ctx, m, kind, ls.drop_last());
    }
}

/// The run after a piece of output.
pub open spec fn after_chunk(
    ctx: CaptureContext,
    m: CaptureModel,
    kind: Seq<char>,
    data: Seq<u8>,
) -> CaptureModel {
    after_lines(ctx, with_chunk(m, kind, data), kind, lines(lossy_text(data)))
}

/// The run after some pieces of output.
pub open spec fn after_chunks(
    ctx: CaptureContext,
    m: CaptureModel,
    chunks: Seq<(Seq<char>, Seq<u8>)>,
) -> CaptureModel
    decreases chunks.len(),
{
    if chunks.len() == 0 {
        m
    } else {
        let (kind, data) = chunks.last();
        after_chunk(ctx, after_chunks(ctx, m, chunks.drop_last()), kind, data)
    }
}

/// The pieces of output that are passed on.
pub open spec fn passed_on(
    ctx: CaptureContext,
    m: CaptureModel,
    chunks: Seq<(Seq<char>, Seq<u8>)>,
) -> Seq<(Seq<char>, Seq<u8>)>
    decreases chunks.len(),
{
    if chunks.len() == 0 {
        Seq::empty()
    } else {
        let before = passed_on(ctx, m, chunks.drop_last());
        if after_chunks(ctx, m, chunks.drop_last()).passthrough {
            before.push(chunks.last())
        } else {
            before
        }
    }
}

/// Pieces of output keep what holds of a run, and a compact run stays one.
pub proof fn law_chunks_keep_the_run_sound(
    ctx: CaptureContext,
    m: CaptureModel,
    chunks: Seq<(Seq<char>, Seq<u8>)>,
)
    requires
        m.wf(ctx),
    ensures
        after_chunks(ctx, m, chunks).wf(ctx),
        m.compact ==> after_chunks(ctx, m, chunks).compact,
    decreases chunks.len(),
{
    if chunks.len() > 0 {
        law_chunks_keep_the_run_sound(ctx, m, chunks.drop_last());
        let before = after_chunks(ctx, m, chunks.drop_last());
        let (kind, data) = chunks.last();
        law_lines_keep_the_run_sound(ctx, with_chunk(before, kind, data), kind, lines(lossy_text(data)));
    }
}

/// Where a run does not become compact, none of its output is lost: all of it is passed on
/// as it comes, or all of it is kept back, in the order in which it came.
pub proof fn law_output_is_not_lost(
    ctx: CaptureContext,
    m: CaptureModel,
    chunks: Seq<(Seq<char>, Seq<u8>)>,
)
    requires
        m.wf(ctx),
        !after_chunks(ctx, m, chunks).compact,
    ensures
        m.passthrough ==> passed_on(ctx, m, chunks) == chunks,
        m.buffering ==> passed_on(ctx, m, chunks) == Seq::<(Seq<char>, Seq<u8>)>::empty(),
        m.buffering ==> after_chunks(ctx, m, chunks).buffered == m.buffered + chunks,
        after_chunks(ctx, m, chunks).passthrough == m.passthrough,
        after_chunks(ctx, m, chunks).buffering == m.buffering,
    decreases chunks.len(),
{
    if chunks.len() == 0 {
        assert(m.buffered + chunks == m.buffered);
        assert(chunks == Seq::<(Seq<char>, Seq<u8>)>::empty());
    } else {
        let init = chunks.drop_last();
        let before = after_chunks(ctx, m, init);
        let (kind, data) = chunks.last();
        law_chunks_keep_the_run_sound(ctx, m, init);
        law_lines_keep_the_run_sound(ctx, with_chunk(before, kind, data), kind, lines(lossy_text(data)));
        law_output_is_not_lost(ctx, m, init);
        assert(init.push(chunks.last()) == chunks);
        assert((m.buffered + init).push(chunks.last()) == m.buffered + chunks);
    }
}

// ---------------------------------------------------------------------------
// Carrying it out

/// The state of a run.
pub struct CaptureState<'a> {
    running: bool,
    had_output: bool,
    passthrough: bool,
    buffering: bool,
    compact: bool,
    buffered: Vec<BufferedChunk>,
    filter: Option<&'a CommandFilterConfig>,
    detector: Option<HeuristicDetector<'a>>,
    max_error_lines: usize,
    history: Option<StringMap<i64>>,
    tail: VecDeque<String>,
    stats: CompactStats,
    summary: Option<CommandSummary>,
}

/// What is done with a piece of output: whether it is passed on, and what is logged.
pub struct ChunkOutcome {
    pub pass_on: bool,
    pub records: Vec<LogRequest>,
}

impl<'a> CaptureState<'a> {
    /// What stays the same during the run.
    pub closed spec fn context(&self) -> CaptureContext {
        CaptureContext {
            filter: match self.filter {
                Some(f) => Some(*f),
                None => None,
            },
            guesses: self.detector is Some,
            names: match self.detector {
                Some(d) => d.names(),
                None => Seq::empty(),
            },
            tools: match self.detector {
                Some(d) => d.tools(),
                None => Map::empty(),
            },
            max_error_lines: self.max_error_lines as int,
            history: match self.history {
                Some(h) => Some(h@),
                None => None,
            },
        }
    }

    /// What changes during the run.
    pub closed spec fn model(&self) -> CaptureModel {
        CaptureModel {
            running: self.running,
            had_output: self.had_output,
            passthrough: self.passthrough,
            buffering: self.buffering,
            compact: self.compact,
            buffered: pieces(self.buffered@),
            choice: match self.detector {
                Some(d) => d.choice(),
                None => None,
            },
            tail: texts(self.tail@),
            counts: self.stats.counts(),
            summary: match self.summary {
                Some(s) => Some(s.counts()),
                None => None,
            },
        }
    }

    /// The state is sound.
    pub closed spec fn wf(&self) -> bool {
        &&& self.model().wf(self.context())
        &&& self.detector matches Some(d) ==> d.wf() && self.filter is None
        &&& self.history matches Some(h) ==> h.wf()
    }

    /// What changes during a run is sound where its state is.
    pub proof fn law_sound_state_has_sound_model(&self)
        requires
            self.wf(),
        ensures
            self.model().wf(self.context()),
    {
    }

    /// A run that starts: compact, or with its output passed on, or with its output kept
    /// back.
    pub fn new(
        filter: Option<&'a CommandFilterConfig>,
        detector: Option<HeuristicDetector<'a>>,
        max_error_lines: usize,
        history: Option<StringMap<i64>>,
        compact: bool,
        keep_back: bool,
    ) -> (r: Self)
        requires
            detector matches Some(d) ==> d.wf() && filter is None,
            history matches Some(h) ==> h.wf(),
            !(compact && keep_back),
        ensures
            r.wf(),
            r.context() == (CaptureContext {
                filter: match filter {
                    Some(f) => Some(*f),
                    None => None,
                },
                guesses: detector is Some,
                names: match detector {
                    Some(d) => d.names(),
                    None => Seq::empty(),
                },
                tools: match detector {
                    Some(d) => d.tools(),
                    None => Map::empty(),
                },
                max_error_lines: max_error_lines as int,
                history: match history {
                    Some(h) => Some(h@),
                    None => None,
                },
            }),
            r.model() == (CaptureModel {
                running: true,
                had_output: false,
                passthrough: !compact && !keep_back,
                buffering: keep_back,
                compact,
                buffered: Seq::empty(),
                choice: match detector {
                    Some(d) => d.choice(),
                    None => None,
                },
                tail: Seq::empty(),
                counts: no_lines(),
                summary: if filter is Some || detector is Some {
                    Some(no_summary())
                } else {
                    None
                },
            }),
    {
        let summary: Option<CommandSummary> = if filter.is_some() || detector.is_some() {
            Some(CommandSummary::default())
        } else {
            None
        };
        let r = CaptureState {
            running: true,
            had_output: false,
            passthrough: !compact && !keep_back,
            buffering: keep_back,
            compact,
            buffered: Vec::new(),
            filter,
            detector,
            max_error_lines,
            history,
            tail: VecDeque::new(),
            stats: CompactStats::default(),
            summary,
        };
        proof {
            assert(texts(r.tail@) == Seq::<Seq<char>>::empty());
            assert(pieces(r.buffered@) == Seq::<(Seq<char>, Seq<u8>)>::empty());
        }
        r
    }

    /// Whether the run is a compact one.
    pub fn is_compact(&self) -> (r: bool)
        ensures
            r == self.model().compact,
    {
        self.compact
    }

    /// Whether the run is going on.
    pub fn is_running(&self) -> (r: bool)
        ensures
            r == self.model().running,
    {
        self.running
    }

    /// Whether there was output.
    pub fn has_output(&self) -> (r: bool)
        ensures
            r == self.model().had_output,
    {
        self.had_output
    }

    /// Whether output is kept back.
    pub fn keeps_back(&self) -> (r: bool)
        ensures
            r == self.model().buffering,
    {
        self.buffering
    }

    /// The output that was kept back, in the order in which it came.
    pub fn kept_back(&self) -> (r: &Vec<BufferedChunk>)
        ensures
            pieces(r@) == self.model().buffered,
    {
        &self.buffered
    }

    /// The counts.
    pub fn stats(&self) -> (r: &CompactStats)
        ensures
            r.counts() == self.model().counts,
    {
        &self.stats
    }

    /// The warnings and errors.
    pub fn summary(&self) -> (r: Option<&CommandSummary>)
        ensures
            self.model().summary == match r {
                Some(s) => Some(s.counts()),
                None => None,
            },
    {
        match &self.summary {
            Some(s) => Some(s),
            None => None,
        }
    }

    /// How many error lines are shown.
    pub fn max_error_lines(&self) -> (r: usize)
        ensures
            r == self.context().max_error_lines,
    {
        self.max_error_lines
    }

    /// Makes the run a compact one.
    fn make_compact(&mut self)
        ensures
            final(self).model() == compacted(old(self).model()),
            final(self).context() == old(self).context(),
            final(self).stats == old(self).stats,
            final(self).summary == old(self).summary,
            final(self).detector == old(self).detector,
            final(self).filter == old(self).filter,
            final(self).history == old(self).history,
    {
        self.compact = true;
        self.passthrough = false;
        self.buffering = false;
        self.buffered = Vec::new();
        assert(pieces(self.buffered@) == Seq::<(Seq<char>, Seq<u8>)>::empty());
    }

    /// The time after which a run that goes on is compact has passed.
    pub fn on_timeout(&mut self)
        requires
            old(self).wf(),
        ensures
            final(self).wf(),
            final(self).context() == old(self).context(),
            final(self).model() == if old(self).model().running {
                compacted(old(self).model())
            } else {
                old(self).model()
            },
    {
        if self.running {
            self.make_compact();
        }
    }

    /// The run has ended.
    pub fn stop(&mut self)
        requires
            old(self).wf(),
        ensures
            final(self).wf(),
            final(self).context() == old(self).context(),
            final(self).model() == (CaptureModel { running: false, ..old(self).model() }),
    {
        self.running = false;
    }

    /// Looks at one line of output, and adds its records to `out`.
    fn capture_line(&mut self, rules: &LineRules, kind: &str, line: &str, out: &mut Vec<LogRequest>)
        requires
            rules.wf(),
            old(self).wf(),
            old(self).model().counts.lines < u64::MAX,
        ensures
            final(self).wf(),
            final(self).context() == old(self).context(),
            final(self).model() == after_line(old(self).context(), old(self).model(), kind@, line@),
            entries(final(out)@) == entries(old(out)@) + line_entries(
                old(self).context(),
                old(self).model(),
                kind@,
                line@,
            ),
    {
        let ghost ctx = self.context();
        let ghost m = self.model();
        let ghost before = out@;
        let cleaned: String = normalize_log_line(rules, line);
        let ghost found = found_tool(ctx, m, cleaned@);
        let mut selected: Option<&'a CommandFilterConfig> = self.filter;
        let mut detected: bool = false;
        match &mut self.detector {
            Some(detector) => {
                match detector.detect_cleaned(cleaned.as_str()) {
                    Some((tool, filter)) => {
                        out.push(
                            LogRequest {
                                level: 'U',
                                kind: "FILTER".to_string(),
                                text: tool.to_string(),
                            },
                        );
                        selected = Some(filter);
                        detected = true;
                    },
                    None => {
                        selected = detector.selected_filter();
                    },
                }
            },
            None => {},
        }
        proof {
            assert(detected == (found is Some));
            assert(entries(out@) == entries(before) + match found {
                Some(tool) => seq![('U', "FILTER"@, tool)],
                None => Seq::empty(),
            });
        }
        if detected {
            self.make_compact();
        }
        let ghost filter = by_ref(active_filter(ctx, choice_after(m, found)));
        assert(selected == filter);
        let level: char = classify_cleaned(cleaned.as_str(), selected);
        let ghost mid = out@;
        out.push(LogRequest { level, kind: kind.to_string(), text: line.to_string() });
        proof {
            assert(entries(out@) == entries(mid).push((level, kind@, line@)));
            assert(entries(out@) == entries(before) + line_entries(ctx, m, kind@, line@));
        }
        push_cleaned(&mut self.tail, kind, cleaned.as_str(), TAIL_LINES);
        let history: Option<&StringMap<i64>> = match &self.history {
            Some(h) => Some(h),
            None => None,
        };
        update_progress_from_history(&mut self.stats, line, history);
        count_line(&mut self.stats, level, cleaned.as_str());
        match &mut self.summary {
            Some(summary) => {
                summarize_cleaned(summary, cleaned.as_str(), level, selected, self.max_error_lines);
            },
            None => {},
        }
        proof {
            let one = seq![line@];
            assert(one.drop_last() == Seq::<Seq<char>>::empty());
            assert(after_lines(ctx, m, kind@, one.drop_last()) == m);
            law_lines_keep_the_run_sound(ctx, m, kind@, one);
            assert(after_lines(ctx, m, kind@, one) == after_line(ctx, m, kind@, line@));
            assert(self.model() == after_line(ctx, m, kind@, line@));
        }
    }

    /// Looks at some lines of output, and gives their records.
    pub fn capture_lines(&mut self, rules: &LineRules, kind: &str, ls: &Vec<String>) -> (r: Vec<LogRequest>)
        requires
            rules.wf(),
            old(self).wf(),
            old(self).model().counts.lines + ls@.len() <= u64::MAX,
        ensures
            final(self).wf(),
            final(self).context() == old(self).context(),
            final(self).model() == after_lines(old(self).context(), old(self).model(), kind@, texts(ls@)),
            entries(r@) == lines_entries(old(self).context(), old(self).model(), kind@, texts(ls@)),
    {
        let ghost ctx = self.context();
        let ghost m = self.model();
        let ghost all = texts(ls@);
        let mut out: Vec<LogRequest> = Vec::new();
        let mut i: usize = 0;
        proof {
            assert(all.take(0) == Seq::<Seq<char>>::empty());
            assert(entries(out@) == lines_entries(ctx, m, kind@, all.take(0)));
        }
        while i < ls.len()
            invariant
                i <= ls@.len(),
                rules.wf(),
                all == texts(ls@),
                m.wf(ctx),
                m.counts.lines + ls@.len() <= u64::MAX,
                self.wf(),
                self.context() == ctx,
                self.model() == after_lines(ctx, m, kind@, all.take(i as int)),
                entries(out@) == lines_entries(ctx, m, kind@, all.take(i as int)),
            decreases ls@.len() - i,
        {
            proof {
                law_lines_keep_the_run_sound(ctx, m, kind@, all.take(i as int));
                assert(all.take(i + 1).drop_last() == all.take(i as int));
                assert(all.take(i + 1).last() == ls@[i as int]@);
            }
            self.capture_line(rules, kind, ls[i].as_str(), &mut out);
            i = i + 1;
        }
        assert(all.take(i as int) == all);
        out
    }

    /// Takes a piece of output: notes it, keeps it back where output is kept back, and looks
    /// at its lines. Nothing is done where there are more lines than can be counted.
    pub fn capture_chunk(&mut self, rules: &LineRules, kind: &str, data: &[u8]) -> (r: Option<ChunkOutcome>)
        requires
            rules.wf(),
            old(self).wf(),
        ensures
            final(self).wf(),
            final(self).context() == old(self).context(),
            match r {
                Some(o) => {
                    let start = with_chunk(old(self).model(), kind@, data@);
                    let ls = lines(lossy_text(data@));
                    &&& old(self).model().counts.lines + ls.len() <= u64::MAX
                    &&& o.pass_on == old(self).model().passthrough
                    &&& final(self).model() == after_chunk(old(self).context(), old(self).model(), kind@, data@)
                    &&& entries(o.records@) == lines_entries(old(self).context(), start, kind@, ls)
                },
                None => {
                    &&& old(self).model().counts.lines + lines(lossy_text(data@)).len() > u64::MAX
                    &&& final(self).model() == old(self).model()
                },
            },
            forall|t: Seq<char>| data@ == #[trigger] encode_utf8(t) ==> lossy_text(data@) == t,
    {
        let text: String = from_utf8_lossy(data);
        let ls: Vec<String> = split_lines(text.as_str());
        assert(texts(ls@).len() == ls@.len());
        if ls.len() as u64 > u64::MAX - self.stats.line_count {
            return None;
        }
        let ghost ctx = self.context();
        let ghost m = self.model();
        let pass_on: bool = self.passthrough;
        self.had_output = true;
        if !pass_on && self.buffering {
            let ghost before = self.buffered@;
            let copy: Vec<u8> = copied(data);
            self.buffered.push(BufferedChunk { kind: kind.to_string(), data: copy });
            assert(pieces(self.buffered@) == pieces(before).push((kind@, data@)));
        }
        assert(self.model() == with_chunk(m, kind@, data@));
        let records: Vec<LogRequest> = self.capture_lines(rules, kind, &ls);
        Some(ChunkOutcome { pass_on, records })
    }
}

/// The records of the lines of a text, with the levels that they have without a profile.
pub open spec fn plain_entries(kind: Seq<char>, text: Seq<char>) -> Seq<(char, Seq<char>, Seq<char>)> {
    lines(text).map_values(|l: Seq<char>| (level_of(normalized(l), None), kind, l))
}

/// The records of a piece of output of a run in the background: its lines, with the levels
/// that they have without a profile.
pub fn plain_records(rules: &LineRules, kind: &str, data: &[u8]) -> (r: Vec<LogRequest>)
    requires
        rules.wf(),
    ensures
        entries(r@) == plain_entries(kind@, lossy_text(data@)),
        entries(r@) == lines(lossy_text(data@)).map_values(
            |l: Seq<char>| (level_of(normalized(l), None), kind@, l),
        ),
        forall|t: Seq<char>| data@ == #[trigger] encode_utf8(t) ==> lossy_text(data@) == t,
{
    let text: String = from_utf8_lossy(data);
    let ls: Vec<String> = split_lines(text.as_str());
    let ghost all = texts(ls@);
    let ghost f = |l: Seq<char>| (level_of(normalized(l), None), kind@, l);
    let mut out: Vec<LogRequest> = Vec::new();
    let mut i: usize = 0;
    while i < ls.len()
        invariant
            i <= ls@.len(),
            rules.wf(),
            all == texts(ls@),
            f == (|l: Seq<char>| (level_of(normalized(l), None), kind@, l)),
            out@.len() == i,
            forall|j: int| 0 <= j < i ==> (#[trigger] out@[j]).entry() == f(all[j]),
        decreases ls@.len() - i,
    {
        let cleaned: String = normalize_log_line(rules, ls[i].as_str());
        let level: char = classify_cleaned(cleaned.as_str(), None);
        out.push(LogRequest { level, kind: kind.to_string(), text: ls[i].clone() });
        i = i + 1;
    }
    assert(entries(out@) == all.map_values(f));
    out
}

/// A copy of some bytes.
fn copied(data: &[u8]) -> (r: Vec<u8>)
    ensures
        r@ == data@,
{
    let mut out: Vec<u8> = Vec::new();
    let mut i: usize = 0;
    while i < data.len()
        invariant
            i <= data@.len(),
            out@ == data@.take(i as int),
        decreases data@.len() - i,
    {
        out.push(data[i]);
        assert(data@.take(i + 1) == data@.take(i as int).push(data@[i as int]));
        i = i + 1;
    }
    assert(data@.take(i as int) == data@);
    out
}

} // verus!
