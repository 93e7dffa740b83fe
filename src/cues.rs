//! Turning decoded caption events into display-ready subtitle cues.
use vstd::prelude::*;

verus! {

/// One timing unit of a decoded caption payload: an optional start offset and
/// duration (milliseconds) and an optional list of text segments.
#[derive(Debug, Clone)]
pub struct RawEvent {
    pub start_ms: Option<u32>,
    pub duration_ms: Option<u32>,
    pub segs: Option<Vec<String>>,
}

/// A subtitle cue. Times are in milliseconds; `None` marks a time that is not
/// known (the end of the last merged cue, for instance).
#[derive(Debug, Clone, PartialEq, Eq)]
pub struct SubtitleCue {
    pub id: usize,
    pub text: String,
    pub start_ms: Option<u64>,
    pub end_ms: Option<u64>,
}

/// Mathematical model of a `RawEvent`.
pub struct EventView {
    pub start: Option<u32>,
    pub duration: Option<u32>,
    pub segs: Option<Seq<Seq<char>>>,
}

/// Mathematical model of a `SubtitleCue`.
pub struct CueView {
    pub id: usize,
    pub text: Seq<char>,
    pub start: Option<u64>,
    pub end: Option<u64>,
}

pub open spec fn texts_view(v: Seq<String>) -> Seq<Seq<char>> {
    v.map_values(|s: String| s@)
}

impl View for RawEvent {
    type V = EventView;

    open spec fn view(&self) -> EventView {
        EventView {
            start: self.start_ms,
            duration: self.duration_ms,
            segs: match self.segs {
                Some(v) => Some(texts_view(v@)),
                None => None,
            },
        }
    }
}

impl View for SubtitleCue {
    type V = CueView;

    open spec fn view(&self) -> CueView {
        CueView { id: self.id, text: self.text@, start: self.start_ms, end: self.end_ms }
    }
}

pub open spec fn events_view(s: Seq<RawEvent>) -> Seq<EventView> {
    s.map_values(|e: RawEvent| e@)
}

pub open spec fn cues_view(s: Seq<SubtitleCue>) -> Seq<CueView> {
    s.map_values(|c: SubtitleCue| c@)
}

/// Whether an event carries everything a cue needs: start, duration and segments.
pub open spec fn is_complete(e: EventView) -> bool {
    e.start is Some && e.duration is Some && e.segs is Some
}

/// The cues that the event at position `index` contributes: one per segment,
/// all sharing the event's timing and the id `index + 1`; none when the event
/// lacks its start, its duration or its segments.
pub open spec fn event_cues(e: EventView, index: int) -> Seq<CueView> {
    if is_complete(e) {
        let s = e.start->0;
        let d = e.duration->0;
        let segs = e.segs->0;
        Seq::new(
            segs.len(),
            |j: int|
                CueView {
                    id: (index + 1) as usize,
                    text: segs[j],
                    start: Some(s as u64),
                    end: Some((s + d) as u64),
                },
        )
    } else {
        Seq::empty()
    }
}

/// The per-segment cues of all events, in order.
pub open spec fn flatten_spec(events: Seq<EventView>) -> Seq<CueView>
    decreases events.len(),
{
    if events.len() == 0 {
        Seq::empty()
    } else {
        flatten_spec(events.drop_last()) + event_cues(events.last(), events.len() - 1)
    }
}

/// Emits one cue per segment of each event that has a start and a duration,
/// in order. A cue's id is the 1-based position of its event; its end is the
/// start plus the duration. Events without timing or without segments are
/// skipped.
pub fn flatten_events(events: &Vec<RawEvent>) -> (r: Vec<SubtitleCue>)
    ensures
        cues_view(r@) == flatten_spec(events_view(events@)),
{
    let ghost evs = events_view(events@);
    let mut out: Vec<SubtitleCue> = Vec::new();
    let mut i: usize = 0;
    while i < events.len()
        invariant
            i <= events.len(),
            evs == events_view(events@),
            cues_view(out@) == flatten_spec(evs.take(i as int)),
        decreases events.len() - i,
    {
        let ev = &events[i];
        let ghost before = cues_view(out@);
        proof {
            assert(evs.take(i + 1).drop_last() =~= evs.take(i as int));
            assert(evs.take(i + 1).last() == evs[i as int]);
        }
        match (ev.start_ms, ev.duration_ms, &ev.segs) {
            (Some(start), Some(duration), Some(segs)) => {
                let begin: u64 = start as u64;
                let end: u64 = start as u64 + duration as u64;
                let mut j: usize = 0;
                while j < segs.len()
                    invariant
                        j <= segs.len(),
                        i < events.len(),
                        ev@ == evs[i as int],
                        ev.segs == Some(*segs),
                        is_complete(ev@),
                        begin == start as u64,
                        end == (start + duration) as u64,
                        ev.start_ms == Some(start),
                        ev.duration_ms == Some(duration),
                        cues_view(out@) == before + event_cues(ev@, i as int).take(j as int),
                    decreases segs.len() - j,
                {
                    let text = segs[j].clone();
                    let cue = SubtitleCue { id: i + 1, text, start_ms: Some(begin), end_ms: Some(end) };
                    proof {
                        assert(event_cues(ev@, i as int)[j as int] == cue@);
                    }
                    let ghost prev = out@;
                    out.push(cue);
                    proof {
                        assert(cues_view(out@) =~= cues_view(prev).push(cue@));
                        assert(cues_view(out@) =~= before + event_cues(ev@, i as int).take(j + 1));
                    }
                    j += 1;
                }
                proof {
                    assert(event_cues(ev@, i as int).take(j as int) =~= event_cues(ev@, i as int));
                }
            },
            _ => {
                proof {
                    assert(event_cues(ev@, i as int) =~= Seq::<CueView>::empty());
                    assert(before + Seq::<CueView>::empty() =~= before);
                }
            },
        }
        i += 1;
    }
    proof {
        assert(evs.take(i as int) =~= evs);
    }
    out
}

/// Whether a text holds a line break.
pub open spec fn has_break(t: Seq<char>) -> bool {
    t.contains('\n')
}

/// A text with each line break turned into a single space.
pub open spec fn breaks_to_spaces(t: Seq<char>) -> Seq<char> {
    t.map_values(|ch: char| if ch == '\n' { ' ' } else { ch })
}

/// Relies on str::contains with a char pattern: true exactly when the text
/// holds that character.
#[verifier::external_body]
fn contains_line_break(s: &str) -> (r: bool)
    ensures
        r == has_break(s@),
{
    s.contains('\n')
}

/// Relies on str::replace: every occurrence of the pattern is replaced by the
/// given text, everything else is kept in order.
#[verifier::external_body]
fn replace_line_breaks(s: &str) -> (r: String)
    ensures
        r@ == breaks_to_spaces(s@),
{
    s.replace('\n', " ")
}

/// State of the line-break merge after a prefix of the cues: the finished
/// cues, the text gathered since the last one, and the start of that text.
pub struct MergeState {
    pub done: Seq<CueView>,
    pub text: Seq<char>,
    pub start: Option<u64>,
}

pub open spec fn merge_init() -> MergeState {
    MergeState { done: Seq::empty(), text: Seq::empty(), start: None }
}

/// One step of the merge. Every cue adds its text, and its start if none was
/// gathered yet, so a line starts where its first token starts. A cue whose
/// text holds a line break then closes a finished cue (id one past the
/// previous, the gathered text and start, end unknown) and sets the end of the
/// previous finished cue to that start, so consecutive lines touch.
pub open spec fn merge_step(st: MergeState, c: CueView) -> MergeState {
    let start = if st.start is None { c.start } else { st.start };
    if has_break(c.text) {
        let n = st.done.len();
        let done = if n > 0 {
            let p = st.done[n - 1];
            st.done.update(n - 1, CueView { id: p.id, text: p.text, start: p.start, end: start })
        } else {
            st.done
        };
        MergeState {
            done: done.push(
                CueView { id: (n + 1) as usize, text: st.text + c.text, start: start, end: None },
            ),
            text: Seq::empty(),
            start: None,
        }
    } else {
        MergeState { done: st.done, text: st.text + c.text, start: start }
    }
}

pub open spec fn merge_fold(cues: Seq<CueView>) -> MergeState
    decreases cues.len(),
{
    if cues.len() == 0 {
        merge_init()
    } else {
        merge_step(merge_fold(cues.drop_last()), cues.last())
    }
}

pub open spec fn any_break(cues: Seq<CueView>) -> bool {
    exists|i: int| 0 <= i < cues.len() && has_break(#[trigger] cues[i].text)
}

pub open spec fn strip_cue(c: CueView) -> CueView {
    CueView { id: c.id, text: breaks_to_spaces(c.text), start: c.start, end: c.end }
}

/// The merge step: unchanged when no text holds a line break; otherwise the
/// finished cues of the fold, with line breaks turned into spaces.
pub open spec fn merge_spec(cues: Seq<CueView>) -> Seq<CueView> {
    if any_break(cues) {
        merge_fold(cues).done.map_values(|c: CueView| strip_cue(c))
    } else {
        cues
    }
}

/// Every finished cue of the fold has id one past its position.
pub proof fn lemma_merge_ids(cues: Seq<CueView>)
    requires
        cues.len() <= usize::MAX,
    ensures
        forall|k: int| 0 <= k < merge_fold(cues).done.len() ==> #[trigger] merge_fold(cues).done[k].id == k + 1,
        merge_fold(cues).done.len() <= cues.len(),
    decreases cues.len(),
{
    if cues.len() > 0 {
        let st = merge_fold(cues.drop_last());
        lemma_merge_ids(cues.drop_last());
        let r = merge_fold(cues);
        assert(r == merge_step(st, cues.last()));
        let n = st.done.len();
        assert forall|k: int| 0 <= k < r.done.len() implies #[trigger] r.done[k].id == k + 1 by {
            if has_break(cues.last().text) {
                if k < n - 1 {
                    assert(r.done[k] == st.done[k]);
                } else if k == n - 1 {
                    assert(r.done[k].id == st.done[k].id);
                } else {
                    assert(k == n);
                    assert(r.done[k].id == (n + 1) as usize);
                }
            } else {
                assert(r.done[k] == st.done[k]);
            }
        }
    }
}

/// Regroups cues into lines when some text holds a line break (see
/// `merge_spec`); otherwise returns them unchanged.
pub fn merge_line_breaks(cues: Vec<SubtitleCue>) -> (r: Vec<SubtitleCue>)
    ensures
        cues_view(r@) == merge_spec(cues_view(cues@)),
        any_break(cues_view(cues@)) ==> forall|k: int| 0 <= k < r@.len() ==> #[trigger] r@[k].id == k + 1,
        !any_break(cues_view(cues@)) ==> r@ == cues@,
{
    let ghost cv = cues_view(cues@);
    let mut found = false;
    let mut k: usize = 0;
    while k < cues.len()
        invariant
            k <= cues.len(),
            cv == cues_view(cues@),
            found == exists|i: int| 0 <= i < k && has_break(#[trigger] cv[i].text),
        decreases cues.len() - k,
    {
        proof {
            assert(cv[k as int] == cues@[k as int]@);
        }
        let b = contains_line_break(cues[k].text.as_str());
        if b {
            found = true;
        }
        proof {
            assert(b == has_break(cv[k as int].text));
            if b {
                assert(has_break(cv[k as int].text));
            }
        }
        k += 1;
    }
    if !found {
        return cues;
    }
    let mut merged: Vec<SubtitleCue> = Vec::new();
    let mut current_text = String::new();
    let mut current_start: Option<u64> = None;
    let mut i: usize = 0;
    while i < cues.len()
        invariant
            i <= cues.len(),
            cv == cues_view(cues@),
            cues_view(merged@) == merge_fold(cv.take(i as int)).done,
            current_text@ == merge_fold(cv.take(i as int)).text,
            current_start == merge_fold(cv.take(i as int)).start,
            merged@.len() <= i,
        decreases cues.len() - i,
    {
        proof {
            assert(cv.take(i + 1).drop_last() =~= cv.take(i as int));
            assert(cv.take(i + 1).last() == cv[i as int]);
        }
        let cue = &cues[i];
        current_text.append(cue.text.as_str());
        if current_start.is_none() {
            current_start = cue.start_ms;
        }
        if contains_line_break(cue.text.as_str()) {
            let ghost before = cues_view(merged@);
            if merged.len() > 0 {
                let mut prev = merged.pop().unwrap();
                prev.end_ms = current_start;
                merged.push(prev);
            }
            let ghost mid = merged@;
            let next_id = merged.len() + 1;
            let finished = SubtitleCue { id: next_id, text: current_text, start_ms: current_start, end_ms: None };
            merged.push(finished);
            proof {
                assert(cues_view(merged@) =~= cues_view(mid).push(finished@));
                assert(cues_view(mid) =~= if before.len() > 0 {
                    let p = before[before.len() - 1];
                    before.update(before.len() - 1, CueView { id: p.id, text: p.text, start: p.start, end: current_start })
                } else {
                    before
                });
            }
            current_text = String::new();
            current_start = None;
        }
        i += 1;
    }
    proof {
        assert(cv.take(i as int) =~= cv);
        lemma_merge_ids(cv);
    }
    let ghost done = merge_fold(cv).done;
    let mut out: Vec<SubtitleCue> = Vec::new();
    let mut m: usize = 0;
    while m < merged.len()
        invariant
            m <= merged.len(),
            cues_view(merged@) == done,
            cues_view(out@) == done.take(m as int).map_values(|c: CueView| strip_cue(c)),
        decreases merged.len() - m,
    {
        let c = &merged[m];
        let stripped = SubtitleCue {
            id: c.id,
            text: replace_line_breaks(c.text.as_str()),
            start_ms: c.start_ms,
            end_ms: c.end_ms,
        };
        let ghost prev = out@;
        out.push(stripped);
        proof {
            assert(cues_view(out@) =~= cues_view(prev).push(stripped@));
            assert(done[m as int] == merged@[m as int]@);
            assert(done.take(m + 1).map_values(|c: CueView| strip_cue(c)) =~= done.take(m as int).map_values(|c: CueView| strip_cue(c)).push(strip_cue(done[m as int])));
        }
        m += 1;
    }
    proof {
        assert(done.take(m as int) =~= done);
        assert forall|k: int| 0 <= k < out@.len() implies #[trigger] out@[k].id == k + 1 by {
            assert(cues_view(out@)[k] == out@[k]@);
        }
    }
    out
}

/// The cues of a decoded payload: the flattened cues, then the merge step.
pub open spec fn normalize_spec(events: Seq<EventView>) -> Seq<CueView> {
    merge_spec(flatten_spec(events))
}

/// Turns decoded events into the final cue sequence: flatten, then merge on
/// line breaks.
pub fn normalize(events: &Vec<RawEvent>) -> (r: Vec<SubtitleCue>)
    ensures
        cues_view(r@) == normalize_spec(events_view(events@)),
        any_break(flatten_spec(events_view(events@))) ==> forall|k: int|
            0 <= k < r@.len() ==> #[trigger] r@[k].id == k + 1,
{
    let flat = flatten_events(events);
    merge_line_breaks(flat)
}

/// Number of segments of the complete events.
pub open spec fn complete_segments(events: Seq<EventView>) -> nat
    decreases events.len(),
{
    if events.len() == 0 {
        0
    } else {
        let e = events.last();
        complete_segments(events.drop_last()) + if is_complete(e) { e.segs->0.len() } else { 0 }
    }
}

/// Number of segments of all events, whatever their timing.
pub open spec fn total_segments(events: Seq<EventView>) -> nat
    decreases events.len(),
{
    if events.len() == 0 {
        0
    } else {
        let e = events.last();
        total_segments(events.drop_last()) + match e.segs {
            Some(segs) => segs.len(),
            None => 0,
        }
    }
}

/// Flattening keeps exactly the segments of complete events: as many cues as
/// those segments, and each cue names by its id an event that has a start, a
/// duration and segments, takes that event's timing and one of its texts.
/// Events that lack any of these contribute nothing.
pub proof fn lemma_flatten_keeps_complete_events(events: Seq<EventView>)
    requires
        events.len() <= usize::MAX,
    ensures
        flatten_spec(events).len() == complete_segments(events),
        forall|k: int|
            0 <= k < flatten_spec(events).len() ==> {
                let c = #[trigger] flatten_spec(events)[k];
                let e = events[c.id - 1];
                &&& 1 <= c.id <= events.len()
                &&& is_complete(e)
                &&& c.start == Some(e.start->0 as u64)
                &&& c.end == Some((e.start->0 + e.duration->0) as u64)
                &&& e.segs->0.contains(c.text)
            },
    decreases events.len(),
{
    if events.len() > 0 {
        let init = events.drop_last();
        lemma_flatten_keeps_complete_events(init);
        let f = flatten_spec(events);
        let fi = flatten_spec(init);
        let ec = event_cues(events.last(), events.len() - 1);
        assert(f == fi + ec);
        assert forall|k: int| 0 <= k < f.len() implies {
            let c = #[trigger] f[k];
            let e = events[c.id - 1];
            &&& 1 <= c.id <= events.len()
            &&& is_complete(e)
            &&& c.start == Some(e.start->0 as u64)
            &&& c.end == Some((e.start->0 + e.duration->0) as u64)
            &&& e.segs->0.contains(c.text)
        } by {
            if k < fi.len() {
                assert(f[k] == fi[k]);
                assert(init[fi[k].id - 1] == events[fi[k].id - 1]);
            } else {
                let j = k - fi.len();
                assert(f[k] == ec[j]);
                assert(events.last() == events[events.len() - 1]);
                assert(events.last().segs->0[j] == f[k].text);
            }
        }
    }
}

/// Without a line break in any text, the merge step returns its input.
/// Merging is idempotent: a merged sequence holds no line break, so merging it
/// again changes nothing.
pub proof fn lemma_merge_idempotent(cues: Seq<CueView>)
    ensures
        !any_break(cues) ==> merge_spec(cues) == cues,
        !any_break(merge_spec(cues)),
        merge_spec(merge_spec(cues)) == merge_spec(cues),
{
    let m = merge_spec(cues);
    if any_break(cues) {
        assert forall|i: int| 0 <= i < m.len() implies !has_break(#[trigger] m[i].text) by {
            let t = m[i].text;
            assert forall|j: int| 0 <= j < t.len() implies t[j] != '\n' by {
                let raw = merge_fold(cues).done[i].text;
                assert(t == breaks_to_spaces(raw));
                assert(t[j] == if raw[j] == '\n' { ' ' } else { raw[j] });
            }
        }
    }
}

/// On the merge path the ids are 1, 2, 3, ... in output order, however many
/// events or segments went into each cue or were skipped before it.
pub proof fn lemma_merged_ids_contiguous(cues: Seq<CueView>)
    requires
        cues.len() <= usize::MAX,
        any_break(cues),
    ensures
        forall|k: int| 0 <= k < merge_spec(cues).len() ==> #[trigger] merge_spec(cues)[k].id == k + 1,
{
    lemma_merge_ids(cues);
    assert forall|k: int| 0 <= k < merge_spec(cues).len() implies #[trigger] merge_spec(cues)[k].id == k + 1 by {
        assert(merge_spec(cues)[k] == strip_cue(merge_fold(cues).done[k]));
    }
}

/// When every event has a start and a duration and no segment text holds a
/// line break, normalizing is flattening alone, with one cue per segment.
pub proof fn lemma_no_breaks_one_cue_per_segment(events: Seq<EventView>)
    requires
        events.len() <= usize::MAX,
        forall|i: int| 0 <= i < events.len() ==> (#[trigger] events[i]).start is Some && events[i].duration is Some,
        forall|i: int, j: int|
            0 <= i < events.len() && (#[trigger] events[i]).segs is Some && 0 <= j < events[i].segs->0.len()
                ==> !has_break(#[trigger] events[i].segs->0[j]),
    ensures
        normalize_spec(events) == flatten_spec(events),
        normalize_spec(events).len() == total_segments(events),
{
    lemma_flatten_keeps_complete_events(events);
    let f = flatten_spec(events);
    assert forall|k: int| 0 <= k < f.len() implies !has_break(#[trigger] f[k].text) by {
        let e = events[f[k].id - 1];
        let j = choose|j: int| 0 <= j < e.segs->0.len() && e.segs->0[j] == f[k].text;
        assert(!has_break(events[f[k].id - 1].segs->0[j]));
    }
    lemma_merge_idempotent(f);
    lemma_segments_when_timed(events);
}

proof fn lemma_segments_when_timed(events: Seq<EventView>)
    requires
        forall|i: int| 0 <= i < events.len() ==> (#[trigger] events[i]).start is Some && events[i].duration is Some,
    ensures
        complete_segments(events) == total_segments(events),
    decreases events.len(),
{
    if events.len() > 0 {
        let init = events.drop_last();
        assert forall|i: int| 0 <= i < init.len() implies (#[trigger] init[i]).start is Some && init[i].duration is Some by {
            assert(init[i] == events[i]);
        }
        lemma_segments_when_timed(init);
        assert(events.last() == events[events.len() - 1]);
    }
}

/// A cue with its id cleared: what the merge reads of it.
pub open spec fn without_id(c: CueView) -> CueView {
    CueView { id: 0, text: c.text, start: c.start, end: c.end }
}

pub open spec fn without_ids(s: Seq<CueView>) -> Seq<CueView> {
    s.map_values(|c: CueView| without_id(c))
}

/// The flattened cues with ids cleared, which no longer depend on positions.
pub open spec fn flatten_without_ids(events: Seq<EventView>) -> Seq<CueView>
    decreases events.len(),
{
    if events.len() == 0 {
        Seq::empty()
    } else {
        flatten_without_ids(events.drop_last()) + without_ids(event_cues(events.last(), 0))
    }
}

proof fn lemma_flatten_without_ids(events: Seq<EventView>)
    ensures
        without_ids(flatten_spec(events)) == flatten_without_ids(events),
    decreases events.len(),
{
    if events.len() > 0 {
        let init = events.drop_last();
        lemma_flatten_without_ids(init);
        let e = events.last();
        assert(without_ids(event_cues(e, events.len() - 1)) =~= without_ids(event_cues(e, 0)));
        assert(without_ids(flatten_spec(init) + event_cues(e, events.len() - 1)) =~= without_ids(
            flatten_spec(init),
        ) + without_ids(event_cues(e, events.len() - 1)));
    }
}

proof fn lemma_flatten_without_ids_remove(events: Seq<EventView>, i: int)
    requires
        0 <= i < events.len(),
        !is_complete(events[i]),
    ensures
        flatten_without_ids(events.remove(i)) == flatten_without_ids(events),
    decreases events.len(),
{
    let init = events.drop_last();
    if i == events.len() - 1 {
        assert(events.remove(i) =~= init);
        assert(without_ids(event_cues(events.last(), 0)) =~= Seq::<CueView>::empty());
        assert(flatten_without_ids(init) + Seq::<CueView>::empty() =~= flatten_without_ids(init));
    } else {
        assert(init[i] == events[i]);
        lemma_flatten_without_ids_remove(init, i);
        let r = events.remove(i);
        assert(r.drop_last() =~= init.remove(i));
        assert(r.last() == events.last());
    }
}

/// The merge reads texts and starts, never the incoming ids.
proof fn lemma_merge_fold_ignores_ids(a: Seq<CueView>, b: Seq<CueView>)
    requires
        without_ids(a) == without_ids(b),
    ensures
        merge_fold(a) == merge_fold(b),
    decreases a.len(),
{
    assert(a.len() == without_ids(a).len());
    assert(b.len() == without_ids(b).len());
    if a.len() > 0 {
        assert forall|j: int| 0 <= j < a.len() - 1 implies without_ids(a.drop_last())[j] == without_ids(
            b.drop_last(),
        )[j] by {
            assert(without_ids(a)[j] == without_id(a[j]));
            assert(without_ids(b)[j] == without_id(b[j]));
            assert(a.drop_last()[j] == a[j]);
            assert(b.drop_last()[j] == b[j]);
            assert(without_ids(a.drop_last())[j] == without_id(a[j]));
            assert(without_ids(b.drop_last())[j] == without_id(b[j]));
        }
        assert(without_ids(a.drop_last()) =~= without_ids(b.drop_last()));
        lemma_merge_fold_ignores_ids(a.drop_last(), b.drop_last());
        assert(without_ids(a)[a.len() - 1] == without_ids(b)[a.len() - 1]);
        assert(without_ids(a)[a.len() - 1] == without_id(a.last()));
        assert(without_ids(b)[a.len() - 1] == without_id(b.last()));
        assert(a.last().text == b.last().text);
        assert(a.last().start == b.last().start);
    }
}

/// On the merge path, an event that lacks its start, its duration or its
/// segments changes nothing: the result is the one without that event.
pub proof fn lemma_incomplete_event_changes_no_line(events: Seq<EventView>, i: int)
    requires
        events.len() <= usize::MAX,
        0 <= i < events.len(),
        !is_complete(events[i]),
        any_break(flatten_spec(events)),
    ensures
        any_break(flatten_spec(events.remove(i))),
        normalize_spec(events.remove(i)) == normalize_spec(events),
{
    let r = events.remove(i);
    let fa = flatten_spec(events);
    let fb = flatten_spec(r);
    lemma_flatten_without_ids(events);
    lemma_flatten_without_ids(r);
    lemma_flatten_without_ids_remove(events, i);
    assert(without_ids(fa) == without_ids(fb));
    assert(fa.len() == without_ids(fa).len());
    assert(fb.len() == without_ids(fb).len());
    let k = choose|k: int| 0 <= k < fa.len() && has_break(#[trigger] fa[k].text);
    assert(without_ids(fa)[k] == without_ids(fb)[k]);
    assert(has_break(fb[k].text));
    lemma_merge_fold_ignores_ids(fa, fb);
}

proof fn lemma_fold_lines_touch(cues: Seq<CueView>)
    ensures
        forall|k: int|
            0 <= k < merge_fold(cues).done.len() - 1 ==> #[trigger] merge_fold(cues).done[k].end
                == merge_fold(cues).done[k + 1].start,
        merge_fold(cues).done.len() > 0 ==> merge_fold(cues).done.last().end is None,
    decreases cues.len(),
{
    if cues.len() > 0 {
        let st = merge_fold(cues.drop_last());
        lemma_fold_lines_touch(cues.drop_last());
        let r = merge_fold(cues);
        assert(r == merge_step(st, cues.last()));
        let n = st.done.len();
        if has_break(cues.last().text) {
            assert forall|k: int| 0 <= k < r.done.len() - 1 implies #[trigger] r.done[k].end == r.done[k + 1].start by {
                if k < n - 2 {
                    assert(r.done[k] == st.done[k]);
                    assert(r.done[k + 1] == st.done[k + 1]);
                } else if k == n - 2 {
                    assert(r.done[k] == st.done[k]);
                    assert(r.done[k + 1].start == st.done[k + 1].start);
                }
            }
        }
    }
}

/// On the merge path consecutive lines touch: each cue ends where the next
/// one starts, and the last cue's end is unknown.
pub proof fn lemma_merged_lines_touch(cues: Seq<CueView>)
    requires
        any_break(cues),
    ensures
        forall|k: int|
            0 <= k < merge_spec(cues).len() - 1 ==> #[trigger] merge_spec(cues)[k].end == merge_spec(cues)[k + 1].start,
        merge_spec(cues).len() > 0 ==> merge_spec(cues).last().end is None,
{
    lemma_fold_lines_touch(cues);
    let d = merge_fold(cues).done;
    assert forall|k: int| 0 <= k < merge_spec(cues).len() - 1 implies #[trigger] merge_spec(cues)[k].end
        == merge_spec(cues)[k + 1].start by {
        assert(merge_spec(cues)[k] == strip_cue(d[k]));
        assert(merge_spec(cues)[k + 1] == strip_cue(d[k + 1]));
    }
    if d.len() > 0 {
        assert(merge_spec(cues)[d.len() - 1] == strip_cue(d[d.len() - 1]));
    }
}

} // verus!
