use log_merge::log_merge::{LogMerge, LogMergeError, MergeStep, PollOutcome};

/// Drive a scheduler over scripted sources until it reports end-of-sequence,
/// the way a stream driver would: poll every source the scheduler asks for,
/// hand the outcomes over in ascending source order, and collect the lines.
fn collect_merged(sources: Vec<Vec<&str>>) -> Result<Vec<String>, LogMergeError> {
    let mut cursors = vec![0usize; sources.len()];
    let mut merge = LogMerge::new(sources.len());
    let mut out = Vec::new();
    loop {
        let mut outcomes = Vec::new();
        for s in 0..merge.num_sources() {
            if merge.needs_poll(s) {
                if cursors[s] < sources[s].len() {
                    outcomes.push(PollOutcome::Line(sources[s][cursors[s]].to_string()));
                    cursors[s] += 1;
                } else {
                    outcomes.push(PollOutcome::Exhausted);
                }
            }
        }
        match merge.advance(outcomes) {
            Ok(MergeStep::Line(line)) => out.push(line),
            Ok(MergeStep::Done) => return Ok(out),
            Ok(MergeStep::NotReady) => {}
            Err(e) => return Err(e),
        }
    }
}

fn expect_lines(result: Result<Vec<String>, LogMergeError>) -> Vec<String> {
    match result {
        Ok(lines) => lines,
        Err(_) => panic!("merge failed"),
    }
}

#[test]
fn test_new() {
    let merge = LogMerge::new(2);
    assert!(merge.num_sources() == 2);
    assert!(merge.source_state.len() == 2);
}

#[test]
fn empty_streams() {
    let result = expect_lines(collect_merged(vec![vec![]]));
    assert!(result.is_empty());
}

#[test]
fn test_single_stream() {
    let result = expect_lines(collect_merged(vec![vec!["s11", "s12"]]));
    assert_eq!(vec![String::from("s11"), String::from("s12")], result);
}

#[test]
fn test_multiple_streams_same_length() {
    let result = expect_lines(collect_merged(vec![
        vec!["s11", "s12"],
        vec!["s21", "s22"],
        vec!["s31", "s32"],
    ]));
    assert_eq!(
        vec![
            String::from("s11"),
            String::from("s21"),
            String::from("s31"),
            String::from("s12"),
            String::from("s22"),
            String::from("s32")
        ],
        result
    );
}

#[test]
fn test_multiple_streams_varying_length() {
    let result = expect_lines(collect_merged(vec![
        vec!["s11", "s12"],
        vec!["s21"],
        vec!["s31", "s32", "s33"],
    ]));
    assert_eq!(
        vec![
            String::from("s11"),
            String::from("s21"),
            String::from("s31"),
            String::from("s12"),
            String::from("s32"),
            String::from("s33")
        ],
        result
    );
}

#[test]
fn no_sources_reports_done_at_once() {
    let mut merge = LogMerge::new(0);
    assert!(matches!(merge.advance(Vec::new()), Ok(MergeStep::Done)));
}

#[test]
fn done_is_idempotent() {
    let mut merge = LogMerge::new(1);
    assert!(matches!(
        merge.advance(vec![PollOutcome::Exhausted]),
        Ok(MergeStep::Done)
    ));
    for _ in 0..3 {
        assert!(matches!(merge.advance(Vec::new()), Ok(MergeStep::Done)));
    }
}

#[test]
fn not_ready_source_blocks_release() {
    let mut merge = LogMerge::new(2);
    // Source 0 answers, source 1 stays silent: nothing may be released.
    let r = merge.advance(vec![
        PollOutcome::Line("a1".to_string()),
        PollOutcome::NotReady,
    ]);
    assert!(matches!(r, Ok(MergeStep::NotReady)));
    // Source 0 is buffered now, so only source 1 is polled; still silent.
    assert!(!merge.needs_poll(0));
    assert!(merge.needs_poll(1));
    let r = merge.advance(vec![PollOutcome::NotReady]);
    assert!(matches!(r, Ok(MergeStep::NotReady)));
    // Source 1 finally answers: the round completes and the earliest
    // buffered line comes out first.
    let r = merge.advance(vec![PollOutcome::Line("b1".to_string())]);
    match r {
        Ok(MergeStep::Line(line)) => assert_eq!(line, "a1"),
        _ => panic!("expected the buffered line"),
    }
    // `b1` stays buffered until source 0 answers for the next round.
    assert!(merge.needs_poll(0));
    let r = merge.advance(vec![PollOutcome::NotReady]);
    assert!(matches!(r, Ok(MergeStep::NotReady)));
    let r = merge.advance(vec![PollOutcome::Line("a2".to_string())]);
    match r {
        Ok(MergeStep::Line(line)) => assert_eq!(line, "b1"),
        _ => panic!("expected the second buffered line"),
    }
}

#[test]
fn failure_surfaces_on_the_same_call_and_is_terminal() {
    let mut merge = LogMerge::new(2);
    let r = merge.advance(vec![
        PollOutcome::Line("a1".to_string()),
        PollOutcome::Failed,
    ]);
    assert!(matches!(r, Err(LogMergeError::DefaultError)));
    assert!(merge.has_failed());
    // Every later call repeats the failure; no line ever comes out.
    for _ in 0..3 {
        let r = merge.advance(vec![PollOutcome::Line("x".to_string())]);
        assert!(matches!(r, Err(LogMergeError::DefaultError)));
    }
}

#[test]
fn fairness_no_second_line_before_each_peer_contributes() {
    // With unequal sources, no source may have two lines in the output
    // before every source that was then unfinished has one from the same
    // or an earlier round.
    let sources = vec![vec!["a1", "a2"], vec!["b1"], vec!["c1", "c2", "c3"]];
    let lines = expect_lines(collect_merged(sources.clone()));
    let origin = |line: &str| -> usize {
        sources
            .iter()
            .position(|src| src.contains(&line))
            .expect("line has an origin")
    };
    for (i, line) in lines.iter().enumerate() {
        let s = origin(line);
        let earlier_from_s = lines[..i].iter().filter(|l| origin(l) == s).count();
        if earlier_from_s > 0 {
            // Source s already contributed: every source with lines left at
            // that point must have contributed at least as many rounds.
            for (other, src) in sources.iter().enumerate() {
                if other != s && src.len() >= earlier_from_s + 1 {
                    let other_count = lines[..i].iter().filter(|l| origin(l) == other).count();
                    assert!(other_count >= earlier_from_s);
                }
            }
        }
    }
}

#[test]
fn error_message_names_the_failed_stream() {
    let err = LogMergeError::DefaultError;
    assert_eq!(err.message(), "Failed stream.");
}
