use temper::engine::{Match, SearchError};
use temper::lint::{compile, Lint, Severity};
use temper::prose::{partition, Offset, PositionIndex, Prose, ProseOff, Work};
use temper::schedule::{worker_step, AggMsg, Aggregator, WorkerAction, WorkerEvent, WorkerState};

fn prose_of(name: &str, text: &str) -> Prose {
    Prose { name: name.to_string(), text: text.as_bytes().to_vec(), eol: b'\n' }
}

fn rule(doc: &str) -> Lint {
    compile(doc).unwrap()
}

fn match_key(m: &Match) -> (usize, usize, String, String, usize, usize, String) {
    (
        m.line,
        m.column,
        m.lint.clone(),
        m.msg.clone(),
        m.offset.start,
        m.offset.end,
        m.file.clone(),
    )
}

#[test]
fn partitions_reproduce_the_buffer() {
    let text = "one line\ntwo line\n\nred line\nblue line";
    let bytes = text.as_bytes().to_vec();
    let idx = PositionIndex::build(&bytes, b'\n');
    for split in [0usize, 1, 2, 3, 4, 100] {
        let parts = partition(&idx, bytes.len(), split);
        let mut rebuilt: Vec<u8> = Vec::new();
        for p in &parts {
            rebuilt.extend_from_slice(&bytes[p.start..p.end]);
        }
        assert_eq!(bytes, rebuilt);
        for p in &parts {
            assert!(p.start == 0 || bytes[p.start - 1] == b'\n');
        }
    }
}

#[test]
fn partition_count_is_clamped() {
    let text = "a\nb\nc";
    let bytes = text.as_bytes().to_vec();
    let idx = PositionIndex::build(&bytes, b'\n');
    assert_eq!(1, partition(&idx, bytes.len(), 0).len());
    assert_eq!(1, partition(&idx, bytes.len(), 1).len());
    let many = partition(&idx, bytes.len(), 100);
    assert_eq!(3, many.len());
}

#[test]
fn line_starts_resolve_to_column_one() {
    let text = "first\nsecond\n\nfourth";
    let bytes = text.as_bytes().to_vec();
    let idx = PositionIndex::build(&bytes, b'\n');
    let mut starts: Vec<usize> = vec![0];
    for (i, b) in bytes.iter().enumerate() {
        if *b == b'\n' {
            starts.push(i + 1);
        }
    }
    for (line0, off) in starts.iter().enumerate() {
        assert_eq!((line0 + 1, 1), idx.resolve(*off));
    }
}

#[test]
fn resolve_gives_line_and_column() {
    let text = "ab\ncdef\ng";
    let bytes = text.as_bytes().to_vec();
    let idx = PositionIndex::build(&bytes, b'\n');
    assert_eq!((1, 2), idx.resolve(1));
    assert_eq!((2, 1), idx.resolve(3));
    assert_eq!((2, 4), idx.resolve(6));
    assert_eq!((3, 1), idx.resolve(8));
}

#[test]
fn single_token_scenario() {
    let lint = rule(
        "
[lint]
name = 'no-very'

tokens = ['very']
",
    );
    let prose = prose_of("scenario.txt", "very good");
    let matches = prose.lint(&vec![lint], 1).unwrap();
    assert_eq!(1, matches.len());
    let m = &matches[0];
    assert_eq!(1, m.line);
    assert_eq!(1, m.column);
    assert_eq!("no-very", m.lint.as_str());
    assert!(m.msg.contains("very"));
    assert_eq!("very is a usage error", m.msg.as_str());
    assert_eq!(Severity::Warning, m.severity);
    assert_eq!(0, m.offset.start);
    assert_eq!(4, m.offset.end);
}

#[test]
fn mapping_scenario_renders_replacement() {
    let lint = rule(
        "
[lint]
name = 'no-bad'

[mapping]
bad = 'good'
",
    );
    let prose = prose_of("scenario.txt", "this is bad");
    let matches = prose.lint(&vec![lint], 1).unwrap();
    assert_eq!(1, matches.len());
    let m = &matches[0];
    assert!(m.msg.contains("bad"));
    assert!(m.msg.contains("good"));
    assert_eq!("Consider replacing bad with good", m.msg.as_str());
    assert_eq!(1, m.line);
    assert_eq!(9, m.column);
}

#[test]
fn matches_are_ordered_by_position() {
    let lint = rule(
        "
[lint]
name = 'no-alpha'

tokens = ['alpha']
",
    );
    let text = "the alpha word\nnothing here\nanother alpha here\nquiet";
    for split in [1usize, 2, 4, 8] {
        let prose = prose_of("ordered.txt", text);
        let matches = prose.lint(&vec![lint.clone()], split).unwrap();
        assert_eq!(2, matches.len());
        assert_eq!(1, matches[0].line);
        assert_eq!(3, matches[1].line);
    }
}

#[test]
fn split_factor_does_not_change_the_match_set() {
    let lints = vec![
        rule(
            "
[lint]
name = 'no-very'

tokens = ['very']
",
        ),
        rule(
            "
[lint]
name = 'no-bad'
severity = 'error'

[mapping]
bad = 'good'
utilize = 'use'
",
        ),
    ];
    let text = "very bad line\nfine here\nwe utilize words\n\nbad again, very bad\nlast";
    let prose1 = prose_of("same.txt", text);
    let ones = prose1.lint(&lints, 1).unwrap();
    let prose8 = prose_of("same.txt", text);
    let eights = prose8.lint(&lints, 8).unwrap();
    let mut k1: Vec<_> = ones.iter().map(match_key).collect();
    let mut k8: Vec<_> = eights.iter().map(match_key).collect();
    k1.sort();
    k8.sort();
    assert_eq!(k1, k8);
    assert!(ones.len() > 0);
}

#[test]
fn bad_pattern_fails_the_search() {
    let lint = rule(
        "
[lint]
name = 'broken'

tokens = ['(']
",
    );
    let prose = prose_of("b.txt", "anything");
    assert!(matches!(prose.lint(&vec![lint], 1), Err(SearchError::PatternCompile)));
}

#[test]
fn non_text_match_fails_with_encoding_error() {
    let lint = rule(
        "
[lint]
name = 'raw-byte'
regex = '{regex}'

tokens = ['(?-u:\\xFF)']
",
    );
    let mut bytes = b"ok ".to_vec();
    bytes.push(0xFF);
    bytes.extend_from_slice(b" ok");
    let prose = Prose { name: "raw.bin".to_string(), text: bytes, eol: b'\n' };
    assert!(matches!(prose.lint(&vec![lint], 1), Err(SearchError::Encoding)));
}

#[test]
fn bad_message_template_fails_with_render_error() {
    let lint = rule(
        "
[lint]
name = 'bad-template'
msg = '{nope} is wrong'

tokens = ['word']
",
    );
    let prose = prose_of("r.txt", "a word here");
    assert!(matches!(prose.lint(&vec![lint], 1), Err(SearchError::Render)));
}

#[test]
fn no_match_means_empty_ok_result() {
    let lint = rule(
        "
[lint]
name = 'no-very'

tokens = ['very']
",
    );
    let prose = prose_of("clean.txt", "all quiet here\nnothing at all");
    let matches = prose.lint(&vec![lint], 2).unwrap();
    assert_eq!(0, matches.len());
}

#[test]
fn aggregator_sorts_collected_batches() {
    let mk = |line: usize, column: usize| Match {
        file: "f".to_string(),
        line,
        column,
        lint: "l".to_string(),
        severity: Severity::Warning,
        msg: "m".to_string(),
        offset: Offset::new(0, 1),
    };
    let mut agg = Aggregator::new(2);
    agg.accept(AggMsg::Batch(vec![mk(3, 1), mk(3, 4)]));
    agg.accept(AggMsg::Done);
    agg.accept(AggMsg::Batch(vec![mk(1, 2)]));
    agg.accept(AggMsg::Done);
    assert!(agg.is_finished());
    let out = agg.finish().unwrap();
    let pos: Vec<(usize, usize)> = out.iter().map(|m| (m.line, m.column)).collect();
    assert_eq!(vec![(1, 2), (3, 1), (3, 4)], pos);
}

#[test]
fn aggregator_keeps_the_first_error_only() {
    let mut agg = Aggregator::new(2);
    agg.accept(AggMsg::Failed(SearchError::Encoding));
    agg.accept(AggMsg::Failed(SearchError::Render));
    agg.accept(AggMsg::Done);
    agg.accept(AggMsg::Done);
    assert!(matches!(agg.finish(), Err(SearchError::Encoding)));
}

#[test]
fn worker_steps_through_its_lifecycle() {
    let (s, a) = worker_step(WorkerState::Idle, WorkerEvent::StealEmpty);
    assert_eq!(WorkerState::Idle, s);
    assert!(matches!(a, WorkerAction::Poll));

    let (s, a) = worker_step(WorkerState::Idle, WorkerEvent::StealRetry);
    assert_eq!(WorkerState::Idle, s);
    assert!(matches!(a, WorkerAction::Poll));

    let work = Work::Prose(ProseOff {
        prose: prose_of("w.txt", "text"),
        offset: Offset::new(0, 4),
    });
    let (s, a) = worker_step(WorkerState::Idle, WorkerEvent::Stolen(work));
    assert_eq!(WorkerState::Searching, s);
    assert!(matches!(a, WorkerAction::Search(_)));

    let (s, _) = worker_step(WorkerState::Searching, WorkerEvent::SearchDone);
    assert_eq!(WorkerState::Idle, s);

    let (s, a) = worker_step(WorkerState::Searching, WorkerEvent::SearchFailed);
    assert_eq!(WorkerState::Stopped, s);
    assert!(matches!(a, WorkerAction::Close));

    let (s, a) = worker_step(WorkerState::Idle, WorkerEvent::Stolen(Work::Quit));
    assert_eq!(WorkerState::Stopped, s);
    assert!(matches!(a, WorkerAction::Close));

    let (s, _) = worker_step(WorkerState::Stopped, WorkerEvent::StealEmpty);
    assert_eq!(WorkerState::Stopped, s);
}

#[test]
fn severity_propagates_into_matches() {
    let lint = rule(
        "
[lint]
name = 'grave'
severity = 'error'

tokens = ['oops']
",
    );
    let prose = prose_of("sev.txt", "an oops happened");
    let matches = prose.lint(&vec![lint], 1).unwrap();
    assert_eq!(1, matches.len());
    assert_eq!(Severity::Error, matches[0].severity);
    assert_eq!("Error", matches[0].severity.label());
}
