use transcript::cues::{flatten_events, merge_line_breaks, normalize, RawEvent, SubtitleCue};

fn event(start: Option<u32>, duration: Option<u32>, segs: Option<&[&str]>) -> RawEvent {
    RawEvent {
        start_ms: start,
        duration_ms: duration,
        segs: segs.map(|v| v.iter().map(|s| s.to_string()).collect()),
    }
}

fn cue(id: usize, text: &str, start: Option<u64>, end: Option<u64>) -> SubtitleCue {
    SubtitleCue { id, text: text.to_string(), start_ms: start, end_ms: end }
}

#[test]
fn flatten_drops_untimed_and_segmentless_events() {
    let events = vec![
        event(None, Some(100), Some(&["no start"])),
        event(Some(100), None, Some(&["no duration"])),
        event(Some(200), Some(300), None),
        event(Some(500), Some(250), Some(&[])),
        event(Some(1000), Some(500), Some(&["kept"])),
    ];
    let cues = flatten_events(&events);
    assert_eq!(cues, vec![cue(5, "kept", Some(1000), Some(1500))]);
    assert_eq!(normalize(&events), cues);
}

#[test]
fn flatten_shares_event_id_and_timing_across_segments() {
    let events = vec![event(Some(0), Some(1000), Some(&["a", "b"])), event(Some(1000), Some(2000), Some(&["c"]))];
    assert_eq!(
        flatten_events(&events),
        vec![
            cue(1, "a", Some(0), Some(1000)),
            cue(1, "b", Some(0), Some(1000)),
            cue(2, "c", Some(1000), Some(3000)),
        ]
    );
}

#[test]
fn no_line_breaks_means_one_cue_per_segment() {
    let events = vec![
        event(Some(0), Some(10), Some(&["one", "two"])),
        event(Some(10), Some(10), None),
        event(Some(20), Some(10), Some(&["three"])),
    ];
    let cues = normalize(&events);
    assert_eq!(cues.len(), 3);
    assert_eq!(cues, flatten_events(&events));
    assert_eq!(cues[2], cue(3, "three", Some(20), Some(30)));
}

#[test]
fn merge_example_two_lines() {
    let events = vec![
        event(Some(0), Some(1000), Some(&["Hello "])),
        event(Some(1000), Some(500), Some(&["world\n"])),
        event(Some(1500), Some(800), Some(&["Second line\n"])),
    ];
    let cues = normalize(&events);
    assert_eq!(cues.len(), 2);
    assert_eq!(cues[0].id, 1);
    assert_eq!(cues[0].text, "Hello world ");
    assert_eq!(cues[0].start_ms, Some(0));
    assert_eq!(cues[1].id, 2);
    assert_eq!(cues[1].text, "Second line ");
    assert_eq!(cues[1].end_ms, None);
    assert_eq!(cues[1].start_ms, Some(1500));
    assert_eq!(cues[0].end_ms, Some(1500));
}

#[test]
fn line_closed_by_its_only_token_starts_there() {
    let events = vec![event(Some(700), Some(300), Some(&["solo\n"]))];
    assert_eq!(normalize(&events), vec![cue(1, "solo ", Some(700), None)]);
}

#[test]
fn merge_backfills_previous_end_with_next_start() {
    let events = vec![
        event(Some(0), Some(1000), Some(&["Hello "])),
        event(Some(1000), Some(500), Some(&["world\n"])),
        event(Some(1500), Some(800), Some(&["Second "])),
        event(Some(2300), Some(800), Some(&["line\n"])),
    ];
    assert_eq!(
        normalize(&events),
        vec![cue(1, "Hello world ", Some(0), Some(1500)), cue(2, "Second line ", Some(1500), None)]
    );
}

#[test]
fn merge_twice_changes_nothing() {
    let events = vec![
        event(Some(0), Some(1000), Some(&["a ", "b\n"])),
        event(Some(1000), Some(500), Some(&["c\nd\n"])),
        event(Some(2000), Some(500), Some(&["tail"])),
    ];
    let once = normalize(&events);
    assert_eq!(once, vec![cue(1, "a b ", Some(0), Some(1000)), cue(2, "c d ", Some(1000), None)]);
    let twice = merge_line_breaks(once.clone());
    assert_eq!(twice, once);
}

#[test]
fn merged_ids_are_contiguous_after_skips() {
    let events = vec![
        event(None, None, Some(&["skipped"])),
        event(Some(0), Some(100), Some(&["x", "y\n"])),
        event(Some(100), Some(100), None),
        event(Some(200), Some(100), Some(&["z\n"])),
        event(Some(300), Some(100), Some(&["w", "\n"])),
    ];
    let cues = normalize(&events);
    let ids: Vec<usize> = cues.iter().map(|c| c.id).collect();
    assert_eq!(ids, vec![1, 2, 3]);
    assert_eq!(cues[2], cue(3, "w ", Some(300), None));
    assert_eq!(cues[1].end_ms, Some(300));
}

#[test]
fn empty_input_gives_no_cues() {
    assert!(normalize(&vec![]).is_empty());
    assert!(merge_line_breaks(vec![]).is_empty());
}

#[test]
fn line_break_only_segment_closes_a_cue() {
    let cues = merge_line_breaks(vec![cue(1, "left", Some(5), Some(9)), cue(1, "\n", Some(5), Some(9))]);
    assert_eq!(cues, vec![cue(1, "left ", Some(5), None)]);
}

#[test]
fn incomplete_event_changes_no_merged_line() {
    let with_gaps = vec![
        event(Some(0), Some(100), Some(&["a "])),
        event(None, Some(100), Some(&["lost\n"])),
        event(Some(100), Some(100), Some(&["b\n"])),
        event(Some(150), None, Some(&["gone\n"])),
        event(Some(200), Some(100), None),
        event(Some(300), Some(100), Some(&["c\n"])),
    ];
    let without: Vec<RawEvent> = vec![with_gaps[0].clone(), with_gaps[2].clone(), with_gaps[5].clone()];
    let expected = vec![cue(1, "a b ", Some(0), Some(300)), cue(2, "c ", Some(300), None)];
    assert_eq!(normalize(&with_gaps), expected);
    assert_eq!(normalize(&without), expected);
}
